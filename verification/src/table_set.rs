use vstd::prelude::*;

use crate::error::{KeplerErr, KeplerResult};
use crate::imm_tables::{imm_merged, lemma_union_assoc, table_proj, ImmTables};
use crate::mem_table::{
    counter_after_put, drop_seqnos, opt_bytes, opt_len, stored_len, MemTable, TableMap,
};
use crate::sst_manager::{map_bounded, SSTManager};
use crate::types::Value;

verus! {

/// An active table freezes once it holds at least this many bytes.
pub const ACTIVE_CAP_MAX: u64 = 32 * 1024 * 1024;

/// The three read tiers bound together: the active table, the frozen
/// queue, and the on-disk tables.
pub struct TableSet {
    active: MemTable,
    imm_tables: ImmTables,
    sst_manager: SSTManager,
}

impl TableSet {
    pub closed spec fn spec_active(&self) -> MemTable {
        self.active
    }

    pub closed spec fn spec_imm(&self) -> ImmTables {
        self.imm_tables
    }

    pub closed spec fn spec_ssts(&self) -> SSTManager {
        self.sst_manager
    }

    /// What a reader sees: on-disk tables, shadowed by the frozen queue,
    /// shadowed by the active table.
    pub open spec fn view(&self) -> Map<Seq<u8>, Option<Seq<u8>>> {
        self.spec_ssts()@.union_prefer_right(self.spec_imm()@).union_prefer_right(
            drop_seqnos(self.spec_active()@),
        )
    }

    pub open spec fn wf(&self) -> bool {
        &&& self.spec_active().wf()
        &&& self.spec_imm().wf()
        &&& self.spec_ssts().wf()
        &&& map_bounded(self.spec_active()@)
        &&& forall|i: int|
            0 <= i < self.spec_imm().spec_tables().len() ==> map_bounded(
                (#[trigger] self.spec_imm().spec_tables()[i])@,
            )
    }

    /// Whether writing `key` with a value of `val_len` bytes would push
    /// the active table's counter to the freeze cap.
    pub open spec fn would_freeze(&self, key: Seq<u8>, val_len: nat) -> bool {
        counter_after_put(
            self.spec_active().spec_bytes_written() as u64,
            if self.spec_active()@.contains_key(key) {
                Some(stored_len(self.spec_active()@[key].1))
            } else {
                None
            },
            key.len(),
            val_len,
        ) >= ACTIVE_CAP_MAX
    }

    /// Binds recovered tiers together; the frozen queue starts empty.
    pub fn new(sst_manager: SSTManager, mem: MemTable) -> (r: Self)
        requires
            sst_manager.wf(),
            mem.wf(),
            map_bounded(mem@),
        ensures
            r.wf(),
            r.spec_active() == mem,
            r.spec_imm().spec_tables() == Seq::<TableMap>::empty(),
            r.spec_ssts() == sst_manager,
            r@ == sst_manager@.union_prefer_right(drop_seqnos(mem@)),
    {
        let imm = ImmTables::new();
        let r = TableSet { active: mem, imm_tables: imm, sst_manager };
        proof {
            assert(r.spec_imm()@ =~= Map::<Seq<u8>, Option<Seq<u8>>>::empty());
            assert(r.spec_ssts()@.union_prefer_right(r.spec_imm()@) =~= r.spec_ssts()@);
        }
        r
    }

    /// Looks up `key` tier by tier, newest first, answering the first
    /// authoritative entry; a tombstone reads as "not found".
    pub fn get(&self, key: &[u8]) -> (r: KeplerResult<Option<Vec<u8>>>)
        requires
            self.wf(),
        ensures
            match r {
                Ok(Some(b)) => self@.contains_key(key@) && self@[key@] == Some(b@),
                Ok(None) => !self@.contains_key(key@) || self@[key@] is None,
                Err(_) => false,
            },
    {
        let ghost base = self.spec_ssts()@.union_prefer_right(self.spec_imm()@);
        match self.active.tree_get(key)? {
            Some(v) => {
                proof {
                    assert(drop_seqnos(self.spec_active()@).contains_key(key@));
                    assert(self@[key@] == drop_seqnos(self.spec_active()@)[key@]);
                }
                match v {
                    Value::Data(b) => {
                        return Ok(Some(b));
                    },
                    Value::Tombstone => {
                        return Ok(None);
                    },
                }
            },
            None => {
                proof {
                    assert(!drop_seqnos(self.spec_active()@).contains_key(key@));
                    assert(self@.contains_key(key@) == base.contains_key(key@));
                    assert(base.contains_key(key@) ==> self@[key@] == base[key@]);
                }
            },
        }
        match self.imm_tables.lookup_latest(key)? {
            Some(v) => {
                proof {
                    assert(base[key@] == self.spec_imm()@[key@]);
                }
                match v {
                    Value::Data(b) => {
                        return Ok(Some(b));
                    },
                    Value::Tombstone => {
                        return Ok(None);
                    },
                }
            },
            None => {
                proof {
                    assert(base.contains_key(key@) == self.spec_ssts()@.contains_key(key@));
                    assert(self.spec_ssts()@.contains_key(key@) ==> base[key@] == self.spec_ssts()@[
                        key@
                    ]);
                }
            },
        }
        match self.sst_manager.get(key)? {
            Some(Value::Data(b)) => Ok(Some(b)),
            Some(Value::Tombstone) => Ok(None),
            None => Ok(None),
        }
    }

    /// Writes `key` into the active table; once the table crosses its
    /// cap it is frozen onto the queue and a fresh one takes its place.
    /// Answers whether a freeze happened.
    pub fn put(&mut self, seqno: u64, key: &[u8], val: Option<&[u8]>) -> (r: KeplerResult<bool>)
        requires
            old(self).wf(),
            key@.len() <= u32::MAX,
            opt_len(val) <= u32::MAX,
        ensures
            final(self).spec_ssts() == old(self).spec_ssts(),
            match r {
                Ok(frozen) => {
                    &&& final(self).wf()
                    &&& frozen == old(self).would_freeze(key@, opt_len(val))
                    &&& final(self)@ == old(self)@.insert(key@, opt_bytes(val))
                    &&& (!frozen ==> final(self).spec_imm() == old(self).spec_imm()
                        && final(self).spec_active().spec_bytes_written() < ACTIVE_CAP_MAX)
                    &&& (frozen ==> final(self).spec_imm().spec_tables().len() == old(
                        self,
                    ).spec_imm().spec_tables().len() + 1 && final(self).spec_active()@
                        == Map::<Seq<u8>, (u64, Option<Seq<u8>>)>::empty())
                },
                Err(_) => false,
            },
    {
        let ghost base = self.spec_ssts()@.union_prefer_right(self.spec_imm()@);
        let ghost active0 = self.active@;
        self.active.put(seqno, key, val)?;
        proof {
            assert(drop_seqnos(self.spec_active()@) =~= drop_seqnos(active0).insert(
                key@,
                opt_bytes(val),
            ));
            assert(base.union_prefer_right(drop_seqnos(self.spec_active()@)) =~= base.union_prefer_right(
                drop_seqnos(active0),
            ).insert(key@, opt_bytes(val)));
            assert forall|k: Seq<u8>| #[trigger] self.spec_active()@.dom().contains(
                k,
            ) implies k.len() <= u32::MAX && crate::mem_table::stored_len(self.spec_active()@[k].1)
                <= u32::MAX by {
                if k != key@ {
                    assert(active0.dom().contains(k));
                }
            }
        }
        if self.active.bytes_written() >= ACTIVE_CAP_MAX {
            let ghost frozen_view = self.spec_active()@;
            let old_tree = self.active.take_tree()?;
            let mut fresh = MemTable::new();
            core::mem::swap(&mut self.active, &mut fresh);
            // fresh now holds the emptied shell; the new active table is
            // the one just created
            proof {
                assert(self.spec_active()@ == Map::<Seq<u8>, (u64, Option<Seq<u8>>)>::empty());
                assert(old_tree@ == frozen_view);
            }
            self.imm_tables.push_back(old_tree)?;
            proof {
                assert(drop_seqnos(self.spec_active()@)
                    =~= Map::<Seq<u8>, Option<Seq<u8>>>::empty());
                lemma_union_assoc(
                    self.spec_ssts()@,
                    old(self).spec_imm()@,
                    table_proj(old_tree),
                );
                assert(self.spec_imm()@ == old(self).spec_imm()@.union_prefer_right(
                    table_proj(old_tree),
                ));
                assert(table_proj(old_tree) == drop_seqnos(frozen_view));
                assert(self@ =~= self.spec_ssts()@.union_prefer_right(self.spec_imm()@));
                assert(self@ =~= base.union_prefer_right(drop_seqnos(frozen_view)));
                assert forall|i: int|
                    0 <= i < self.spec_imm().spec_tables().len() implies map_bounded(
                    (#[trigger] self.spec_imm().spec_tables()[i])@,
                ) by {
                    if i < old(self).spec_imm().spec_tables().len() {
                        assert(self.spec_imm().spec_tables()[i] == old(
                            self,
                        ).spec_imm().spec_tables()[i]);
                    } else {
                        assert(self.spec_imm().spec_tables()[i] == old_tree);
                    }
                }
            }
            Ok(true)
        } else {
            Ok(false)
        }
    }

    /// Borrows the oldest frozen table, if one is queued.
    pub fn imm_len(&self) -> (r: usize)
        ensures
            r == self.spec_imm().spec_tables().len(),
    {
        self.imm_tables.len()
    }

    /// Borrows the oldest frozen table.
    pub fn imm_front(&self) -> (r: &TableMap)
        requires
            self.spec_imm().spec_tables().len() > 0,
        ensures
            *r == self.spec_imm().spec_tables()[0],
    {
        self.imm_tables.front()
    }

    /// Registers a flushed table and dequeues the frozen table it came
    /// from, keeping the overall mapping as it was.
    pub fn finish_flush(&mut self, sst: crate::sstable::SSTable) -> (r: KeplerResult<()>)
        requires
            old(self).wf(),
            old(self).spec_imm().spec_tables().len() > 0,
            sst.wf(),
            sst@ == table_proj(old(self).spec_imm().spec_tables()[0]),
            old(self).spec_ssts().spec_tables().len() > 0 ==> old(
                self,
            ).spec_ssts().spec_tables().last().spec_id() < sst.spec_id(),
            sst.spec_id() < old(self).spec_ssts().spec_next_id(),
        ensures
            match r {
                Ok(()) => {
                    &&& final(self).wf()
                    &&& final(self)@ == old(self)@
                    &&& final(self).spec_active() == old(self).spec_active()
                    &&& final(self).spec_imm().spec_tables() == old(
                        self,
                    ).spec_imm().spec_tables().drop_first()
                    &&& final(self).spec_ssts().spec_tables() == old(
                        self,
                    ).spec_ssts().spec_tables().push(sst)
                    &&& final(self).spec_ssts().spec_next_id() == old(
                        self,
                    ).spec_ssts().spec_next_id()
                },
                Err(_) => false,
            },
    {
        let ghost imm0 = self.spec_imm().spec_tables();
        let ghost ssts0 = self.spec_ssts()@;
        self.sst_manager.push(sst)?;
        match self.imm_tables.pop_front()? {
            Some(_front) => {},
            None => {
                proof {
                    assert(false);
                }
            },
        }
        proof {
            crate::imm_tables::lemma_imm_merged_cons(imm0);
            assert(imm_merged(imm0) == table_proj(imm0[0]).union_prefer_right(
                imm_merged(imm0.drop_first()),
            ));
            // the flushed table slides from the queue to the newest
            // on-disk position without changing the overlay
            lemma_union_assoc(ssts0, table_proj(imm0[0]), imm_merged(imm0.drop_first()));
            assert(self.spec_ssts()@ == ssts0.union_prefer_right(sst@));
            assert(self.spec_ssts()@.union_prefer_right(self.spec_imm()@) =~= ssts0.union_prefer_right(
                imm_merged(imm0),
            ));
            assert(self@ =~= old(self)@);
            assert forall|i: int|
                0 <= i < self.spec_imm().spec_tables().len() implies map_bounded(
                (#[trigger] self.spec_imm().spec_tables()[i])@,
            ) by {
                assert(self.spec_imm().spec_tables()[i] == imm0[i + 1]);
            }
        }
        Ok(())
    }

    /// Hands out the next table number.
    pub fn sst_next_id(&mut self) -> (r: KeplerResult<u64>)
        requires
            old(self).wf(),
        ensures
            final(self).wf(),
            final(self)@ == old(self)@,
            final(self).spec_active() == old(self).spec_active(),
            final(self).spec_imm() == old(self).spec_imm(),
            final(self).spec_ssts().spec_tables() == old(self).spec_ssts().spec_tables(),
            match r {
                Ok(id) => {
                    &&& id == old(self).spec_ssts().spec_next_id()
                    &&& final(self).spec_ssts().spec_next_id() == old(
                        self,
                    ).spec_ssts().spec_next_id() + 1
                },
                Err(e) => e == KeplerErr::CorruptedSst(0) && final(self).spec_ssts().spec_next_id()
                    == old(self).spec_ssts().spec_next_id(),
            },
    {
        self.sst_manager.get_id()
    }

    /// Number of live on-disk tables.
    pub fn sst_count(&self) -> (r: usize)
        ensures
            r == self.spec_ssts().spec_tables().len(),
    {
        self.sst_manager.len()
    }

    /// Borrows the file image of on-disk table `i`, oldest first.
    pub fn sst_bytes_at(&self, i: usize) -> (r: &Vec<u8>)
        requires
            i < self.spec_ssts().spec_tables().len(),
        ensures
            r@ == self.spec_ssts().spec_tables()[i as int].spec_data(),
    {
        self.sst_manager.table_at(i).bytes()
    }

    /// The number of the on-disk table at position `i`.
    pub fn sst_id_at(&self, i: usize) -> (r: u64)
        requires
            i < self.spec_ssts().spec_tables().len(),
        ensures
            r == self.spec_ssts().spec_tables()[i as int].spec_id(),
    {
        self.sst_manager.table_at(i).id()
    }
}

} // verus!
