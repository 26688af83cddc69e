use vstd::prelude::*;

use crate::error::{KeplerErr, KeplerResult};
use crate::imm_tables::table_proj;
use crate::journal::{replay_map, replay_max, seg_views, wal_records_of, Journal};
use crate::manifest::{live_ids, parse_manifest, Manifest};
use crate::sst_manager::live_count;
use crate::sstable::{footer_sstno, sst_image_view};
use crate::mem_table::drop_seqnos;
use crate::sst_manager::{recovery_sst, ssts_merged, SSTManager};
use crate::sst_writer::flush_one;
use crate::table_set::TableSet;
use crate::types::clone_bytes;

verus! {

/// The engine: sequence allocation, the journal, the manifest, and the
/// three read tiers, driven synchronously.
pub struct KeplerInner {
    seqno: u64,
    journal: Journal,
    manifest: Manifest,
    tables: TableSet,
    poisoned: bool,
}

/// The embedded store.  Writes go through the journal into the active
/// table; an oversized table freezes and is flushed to an on-disk
/// table whose birth the manifest records.
pub struct Kepler {
    inner: KeplerInner,
}

impl KeplerInner {
    /// What a reader sees.
    pub open spec fn view(&self) -> Map<Seq<u8>, Option<Seq<u8>>> {
        self.spec_tables()@
    }

    pub closed spec fn spec_tables(&self) -> TableSet {
        self.tables
    }

    pub closed spec fn spec_journal(&self) -> Journal {
        self.journal
    }

    pub closed spec fn spec_manifest(&self) -> Manifest {
        self.manifest
    }

    pub closed spec fn spec_poisoned(&self) -> bool {
        self.poisoned
    }

    pub closed spec fn spec_seqno(&self) -> u64 {
        self.seqno
    }

    pub open spec fn wf(&self) -> bool {
        &&& self.spec_tables().wf()
        &&& self.spec_journal().wf()
        &&& self.spec_manifest().wf()
    }

    /// Opens the engine over the recovered file images: the manifest
    /// decides the live tables and the replay boundary, the journal
    /// replays the records past it, and reads see the merged result.
    pub fn new(wal_files: Vec<Vec<u8>>, manifest_bytes: Vec<u8>, sst_files: Vec<Vec<u8>>) -> (r:
        KeplerResult<KeplerInner>)
        ensures
            match r {
                Ok(db) => {
                    &&& db.wf()
                    &&& !db.spec_poisoned()
                    &&& crate::manifest::manifest_ok(parse_manifest(manifest_bytes@))
                    &&& db@ == db.spec_tables().spec_ssts()@.union_prefer_right(
                        drop_seqnos(
                            replay_map(
                                wal_records_of(seg_views(wal_files@)),
                                vstd::wrapping::u64_specs::wrapping_add(
                                    crate::manifest::manifest_max_seqno(
                                        parse_manifest(manifest_bytes@),
                                    ),
                                    1,
                                ),
                            ),
                        ),
                    )
                    &&& (sst_files@.len() == 0 ==> db.spec_tables().spec_ssts().spec_tables().len()
                        == 0)
                    &&& db.spec_tables().spec_ssts().spec_tables().len() == live_count(
                        sst_files@,
                        live_ids(parse_manifest(manifest_bytes@)),
                    )
                    &&& forall|j: int|
                        0 <= j < db.spec_tables().spec_ssts().spec_tables().len() ==> exists|i: int|
                            0 <= i < sst_files@.len() && live_ids(
                                parse_manifest(manifest_bytes@),
                            ).contains(footer_sstno((#[trigger] sst_files@[i])@)) && (
                            #[trigger] db.spec_tables().spec_ssts().spec_tables()[j]).spec_id()
                                == footer_sstno(sst_files@[i]@) && db.spec_tables().spec_ssts().spec_tables()[j]@ == sst_image_view(sst_files@[i]@)
                    &&& db.spec_seqno() == vstd::wrapping::u64_specs::wrapping_add(
                        replay_max(
                            wal_records_of(seg_views(wal_files@)),
                            vstd::wrapping::u64_specs::wrapping_add(
                                crate::manifest::manifest_max_seqno(parse_manifest(manifest_bytes@)),
                                1,
                            ),
                        ),
                        1,
                    )
                },
                Err(e) => e == KeplerErr::Unrecoverable && (!crate::manifest::manifest_ok(
                    parse_manifest(manifest_bytes@),
                ) || sst_files@.len() > 0),
            },
            crate::manifest::manifest_ok(parse_manifest(manifest_bytes@)) && sst_files@.len() == 0
                ==> r is Ok,
    {
        let (manifest, version) = match Manifest::new(manifest_bytes) {
            Ok(p) => p,
            Err(_) => {
                return Err(KeplerErr::Unrecoverable);
            },
        };
        let recovered = match recovery_sst(&sst_files, &version.sst_list, version.next_sstno) {
            Ok(t) => t,
            Err(_) => {
                return Err(KeplerErr::Unrecoverable);
            },
        };
        proof {
            assert(crate::version::ids_set(version.spec_ids()) == live_ids(
                parse_manifest(manifest_bytes@),
            ));
        }
        let sst_manager = SSTManager::open(recovered, version.next_sstno);
        let ghost wrecords = wal_records_of(seg_views(wal_files@));
        proof {
            crate::journal::lemma_wal_records_wf(seg_views(wal_files@));
        }
        let (journal, mem, next_seqno) = match Journal::open(wal_files, version.next_seqno) {
            Ok(t) => t,
            Err(_) => {
                return Err(KeplerErr::Unrecoverable);
            },
        };
        proof {
            crate::journal::lemma_replay_map_bounded(wrecords, version.next_seqno);
        }
        let tables = TableSet::new(sst_manager, mem);
        Ok(
            KeplerInner {
                seqno: next_seqno,
                journal,
                manifest,
                tables,
                poisoned: false,
            },
        )
    }

    /// Whether a prior failure has poisoned the engine.
    fn check_thread_error(&self) -> (r: KeplerResult<()>)
        ensures
            r == Ok::<(), KeplerErr>(()) <==> !self.spec_poisoned(),
            r is Err ==> r == Err::<(), KeplerErr>(KeplerErr::Poisoned),
    {
        if self.poisoned {
            Err(KeplerErr::Poisoned)
        } else {
            Ok(())
        }
    }

    /// Flushes every queued frozen table: serialize, register, record in
    /// the manifest, dequeue — in that order.  A failure leaves the
    /// engine poisoned.
    fn flush_pending(&mut self) -> (r: KeplerResult<()>)
        requires
            old(self).wf(),
        ensures
            final(self).spec_poisoned() == (old(self).spec_poisoned() || r is Err),
            final(self).spec_journal() == old(self).spec_journal(),
            final(self).spec_seqno() == old(self).spec_seqno(),
            match r {
                Ok(()) => {
                    &&& final(self).wf()
                    &&& final(self)@ == old(self)@
                    &&& final(self).spec_tables().spec_imm().spec_tables().len() == 0
                    &&& final(self).spec_tables().spec_ssts().spec_tables().len() == old(
                        self,
                    ).spec_tables().spec_ssts().spec_tables().len() + old(
                        self,
                    ).spec_tables().spec_imm().spec_tables().len()
                    &&& final(self).spec_manifest().records().len() == old(
                        self,
                    ).spec_manifest().records().len() + old(
                        self,
                    ).spec_tables().spec_imm().spec_tables().len()
                    &&& forall|j: int|
                        old(self).spec_manifest().records().len() <= j && j < final(self).spec_manifest().records().len() ==> (#[trigger] final(self).spec_manifest().records()[j]).t == 0
                },
                Err(_) => final(self).wf() && final(self)@ == old(self)@,
            },
    {
        loop
            invariant_except_break
                self.wf(),
                self@ == old(self)@,
                self.spec_poisoned() == old(self).spec_poisoned(),
                self.spec_journal() == old(self).spec_journal(),
                self.spec_seqno() == old(self).spec_seqno(),
                self.spec_tables().spec_ssts().spec_tables().len() + self.spec_tables().spec_imm().spec_tables().len()
                    == old(self).spec_tables().spec_ssts().spec_tables().len() + old(
                    self,
                ).spec_tables().spec_imm().spec_tables().len(),
                old(self).spec_manifest().records().len() <= self.spec_manifest().records().len(),
                self.spec_manifest().records().len() == old(self).spec_manifest().records().len()
                    + old(self).spec_tables().spec_imm().spec_tables().len() - self.spec_tables().spec_imm().spec_tables().len(),
                forall|j: int|
                    old(self).spec_manifest().records().len() <= j
                        && j < self.spec_manifest().records().len() ==> (
                    #[trigger] self.spec_manifest().records()[j]).t == 0,
            ensures
                self.wf(),
                self@ == old(self)@,
                self.spec_poisoned() == old(self).spec_poisoned(),
                self.spec_journal() == old(self).spec_journal(),
                self.spec_seqno() == old(self).spec_seqno(),
                self.spec_tables().spec_imm().spec_tables().len() == 0,
                self.spec_tables().spec_ssts().spec_tables().len() == old(
                    self,
                ).spec_tables().spec_ssts().spec_tables().len() + old(
                    self,
                ).spec_tables().spec_imm().spec_tables().len(),
                self.spec_manifest().records().len() == old(self).spec_manifest().records().len()
                    + old(self).spec_tables().spec_imm().spec_tables().len(),
                forall|j: int|
                    old(self).spec_manifest().records().len() <= j
                        && j < self.spec_manifest().records().len() ==> (
                    #[trigger] self.spec_manifest().records()[j]).t == 0,
            decreases self.spec_tables().spec_imm().spec_tables().len(),
        {
            if self.tables.imm_len() == 0 {
                break ;
            }
            let sstno = match self.tables.sst_next_id() {
                Ok(id) => id,
                Err(e) => {
                    self.poisoned = true;
                    return Err(e);
                },
            };
            proof {
                let front0 = self.spec_tables().spec_imm().spec_tables()[0];
                assert(front0.wf());
                assert(crate::sst_manager::map_bounded(front0@));
                crate::sst_manager::lemma_bounded_entries(front0.spec_entries());
            }
            let (sst, fr) = {
                let front = self.tables.imm_front();
                match flush_one(sstno, front) {
                    Ok(p) => p,
                    Err(e) => {
                        self.poisoned = true;
                        return Err(e);
                    },
                }
            };
            proof {
                assert(sst@ == table_proj(
                    self.spec_tables().spec_imm().spec_tables()[0],
                ));
                let mgr = self.spec_tables().spec_ssts();
                if mgr.spec_tables().len() > 0 {
                    assert(mgr.spec_tables()[mgr.spec_tables().len() - 1].spec_id()
                        < mgr.spec_next_id());
                }
            }
            match self.tables.finish_flush(sst) {
                Ok(()) => {},
                Err(e) => {
                    self.poisoned = true;
                    return Err(e);
                },
            }
            match self.manifest.send(fr) {
                Ok(()) => {},
                Err(e) => {
                    self.poisoned = true;
                    return Err(e);
                },
            }
        }
        Ok(())
    }

    /// Writes `key` to carry `val` (`None` deletes it): allocate the
    /// sequence number, journal the record, apply it to the active
    /// table, and flush if that froze the table.
    pub fn put(&mut self, key: &[u8], val: Option<&[u8]>) -> (r: KeplerResult<()>)
        requires
            old(self).wf(),
        ensures
            old(self).spec_poisoned() ==> r == Err::<(), KeplerErr>(KeplerErr::Poisoned)
                && *final(self) == *old(self),
            match r {
                Ok(()) => {
                    &&& !old(self).spec_poisoned()
                    &&& key@.len() <= u32::MAX
                    &&& crate::mem_table::opt_len(val) <= u32::MAX
                    &&& final(self).wf()
                    &&& !final(self).spec_poisoned()
                    &&& final(self)@ == old(self)@.insert(
                        key@,
                        crate::mem_table::opt_bytes(val),
                    )
                    &&& final(self).spec_seqno() == old(self).spec_seqno() + 1
                    &&& final(self).spec_journal().records() == old(
                        self,
                    ).spec_journal().records().push(
                        crate::journal::LogRecord {
                            seqno: old(self).spec_seqno(),
                            key: key@,
                            value: crate::mem_table::opt_bytes(val),
                        },
                    )
                },
                Err(e) => {
                    ||| (e == KeplerErr::Poisoned && old(self).spec_poisoned() && *final(self)
                        == *old(self))
                    ||| (e == KeplerErr::WalWrite && !old(self).spec_poisoned() && *final(self)
                        == *old(self) && (key@.len() > u32::MAX || crate::mem_table::opt_len(val)
                        > u32::MAX))
                    ||| (e == KeplerErr::Unrecoverable && !old(self).spec_poisoned() && key@.len()
                        <= u32::MAX && crate::mem_table::opt_len(val) <= u32::MAX && old(
                        self,
                    ).spec_seqno() == u64::MAX && final(self).spec_poisoned() && final(self).wf()
                        && final(self)@ == old(self)@)
                    ||| (!old(self).spec_poisoned() && key@.len() <= u32::MAX
                        && crate::mem_table::opt_len(val) <= u32::MAX && old(self).spec_seqno()
                        < u64::MAX && old(self).spec_tables().would_freeze(
                        key@,
                        crate::mem_table::opt_len(val),
                    ) && final(self).spec_poisoned() && final(self).wf() && final(self)@ == old(
                        self,
                    )@.insert(key@, crate::mem_table::opt_bytes(val)))
                },
            },
    {
        self.check_thread_error()?;
        let key_ok = (key.len() as u64) <= 0xffff_ffffu64;
        let val_ok = match val {
            Some(v) => (v.len() as u64) <= 0xffff_ffffu64,
            None => true,
        };
        if !key_ok || !val_ok {
            return Err(KeplerErr::WalWrite);
        }
        if self.seqno == u64::MAX {
            self.poisoned = true;
            return Err(KeplerErr::Unrecoverable);
        }
        let seqno = self.seqno;
        self.seqno = self.seqno + 1;
        self.journal.insert(seqno, key, val)?;
        let frozen = self.tables.put(seqno, key, val)?;
        if frozen {
            self.flush_pending()?;
        }
        Ok(())
    }

    /// Looks up `key`, answering the bytes of its most recent write, or
    /// nothing when it was never written or last deleted.
    pub fn get(&self, key: &[u8]) -> (r: KeplerResult<Option<Vec<u8>>>)
        requires
            self.wf(),
        ensures
            match r {
                Ok(Some(b)) => !self.spec_poisoned() && self@.contains_key(key@) && self@[key@]
                    == Some(b@),
                Ok(None) => !self.spec_poisoned() && (!self@.contains_key(key@) || self@[key@]
                    is None),
                Err(e) => self.spec_poisoned() && e == KeplerErr::Poisoned,
            },
    {
        self.check_thread_error()?;
        self.tables.get(key)
    }

    /// The file images the engine's state stands on: the journal
    /// segments, the manifest, and the live table images in ascending
    /// order.
    pub fn into_files(self) -> (r: (Vec<Vec<u8>>, Vec<u8>, Vec<Vec<u8>>))
        ensures
            ({
                let (wal, manifest, ssts) = r;
                &&& seg_views(wal@) == self.spec_journal().spec_segments()
                &&& manifest@ == self.spec_manifest().spec_bytes()
                &&& ssts@.len() == self.spec_tables().spec_ssts().spec_tables().len()
                &&& forall|i: int|
                    0 <= i < ssts@.len() ==> (#[trigger] ssts@[i])@ == self.spec_tables().spec_ssts().spec_tables()[i].spec_data()
            }),
    {
        let journal = self.journal;
        let manifest = self.manifest;
        let tables = self.tables;
        let wal = journal.into_segments();
        let mbytes = manifest.into_bytes();
        let mut ssts: Vec<Vec<u8>> = Vec::new();
        let n = tables.sst_count();
        let mut i: usize = 0;
        while i < n
            invariant
                i <= n,
                n == tables.spec_ssts().spec_tables().len(),
                ssts@.len() == i,
                forall|j: int|
                    0 <= j < i ==> (#[trigger] ssts@[j])@ == tables.spec_ssts().spec_tables()[j].spec_data(),
            decreases n - i,
        {
            let bytes = clone_bytes(tables.sst_bytes_at(i));
            ssts.push(bytes);
            i = i + 1;
        }
        (wal, mbytes, ssts)
    }

    /// Number of journal segments.
    pub fn wal_segment_count(&self) -> (r: usize)
        ensures
            r == self.spec_journal().spec_segments().len(),
    {
        self.journal.segment_count()
    }

    /// Borrows the bytes of journal segment `i`, which stands for the
    /// log file numbered `i + 1`.
    pub fn wal_segment(&self, i: usize) -> (r: &Vec<u8>)
        requires
            i < self.spec_journal().spec_segments().len(),
        ensures
            r@ == self.spec_journal().spec_segments()[i as int],
    {
        self.journal.segment(i)
    }

    /// Borrows the manifest image.
    pub fn manifest_bytes(&self) -> (r: &Vec<u8>)
        ensures
            r@ == self.spec_manifest().spec_bytes(),
    {
        self.manifest.bytes()
    }

    /// Number of live on-disk tables.
    pub fn sst_count(&self) -> (r: usize)
        ensures
            r == self.spec_tables().spec_ssts().spec_tables().len(),
    {
        self.tables.sst_count()
    }

    /// Borrows the file image of on-disk table `i`, oldest first.
    pub fn sst_bytes(&self, i: usize) -> (r: &Vec<u8>)
        requires
            i < self.spec_tables().spec_ssts().spec_tables().len(),
        ensures
            r@ == self.spec_tables().spec_ssts().spec_tables()[i as int].spec_data(),
    {
        self.tables.sst_bytes_at(i)
    }

    /// The number of the on-disk table at position `i`: what names its
    /// file.
    pub fn sst_id(&self, i: usize) -> (r: u64)
        requires
            i < self.spec_tables().spec_ssts().spec_tables().len(),
        ensures
            r == self.spec_tables().spec_ssts().spec_tables()[i as int].spec_id(),
    {
        self.tables.sst_id_at(i)
    }
}

impl Kepler {
    pub closed spec fn spec_inner(&self) -> KeplerInner {
        self.inner
    }

    /// What a reader sees.
    pub open spec fn view(&self) -> Map<Seq<u8>, Option<Seq<u8>>> {
        self.spec_inner()@
    }

    pub open spec fn wf(&self) -> bool {
        self.spec_inner().wf()
    }

    pub open spec fn spec_poisoned(&self) -> bool {
        self.spec_inner().spec_poisoned()
    }

    /// A fresh store with no history; creation always succeeds.
    pub fn new() -> (r: KeplerResult<Kepler>)
        ensures
            r is Ok,
            match r {
                Ok(db) => {
                    &&& db.wf()
                    &&& !db.spec_poisoned()
                    &&& db@ == Map::<Seq<u8>, Option<Seq<u8>>>::empty()
                },
                Err(e) => false,
            },
    {
        let empty_wal: Vec<Vec<u8>> = Vec::new();
        let empty_manifest: Vec<u8> = Vec::new();
        let empty_ssts: Vec<Vec<u8>> = Vec::new();
        proof {
            assert(parse_manifest(empty_manifest@) =~= Seq::<crate::sst_writer::FlushResult>::empty());
            assert(crate::manifest::manifest_ok(parse_manifest(empty_manifest@)));
        }
        Kepler::open(empty_wal, empty_manifest, empty_ssts)
    }

    /// Reopens a store from its file images: the write-ahead segments in
    /// ascending order, the manifest, and the table images in ascending
    /// order.
    pub fn open(wal_files: Vec<Vec<u8>>, manifest_bytes: Vec<u8>, sst_files: Vec<Vec<u8>>) -> (r:
        KeplerResult<Kepler>)
        ensures
            match r {
                Ok(db) => {
                    &&& db.wf()
                    &&& !db.spec_poisoned()
                    &&& db@ == db.spec_inner().spec_tables().spec_ssts()@.union_prefer_right(
                        drop_seqnos(
                            replay_map(
                                wal_records_of(seg_views(wal_files@)),
                                vstd::wrapping::u64_specs::wrapping_add(
                                    crate::manifest::manifest_max_seqno(
                                        parse_manifest(manifest_bytes@),
                                    ),
                                    1,
                                ),
                            ),
                        ),
                    )
                    &&& (wal_files@.len() == 0 && manifest_bytes@.len() == 0 && sst_files@.len()
                        == 0 ==> db@ == Map::<Seq<u8>, Option<Seq<u8>>>::empty())
                    &&& db.spec_inner().spec_tables().spec_ssts().spec_tables().len() == live_count(
                        sst_files@,
                        live_ids(parse_manifest(manifest_bytes@)),
                    )
                    &&& forall|j: int|
                        0 <= j < db.spec_inner().spec_tables().spec_ssts().spec_tables().len()
                            ==> exists|i: int|
                            0 <= i < sst_files@.len() && live_ids(
                                parse_manifest(manifest_bytes@),
                            ).contains(footer_sstno((#[trigger] sst_files@[i])@)) && (
                            #[trigger] db.spec_inner().spec_tables().spec_ssts().spec_tables()[j]).spec_id() == footer_sstno(sst_files@[i]@)
                                && db.spec_inner().spec_tables().spec_ssts().spec_tables()[j]@
                                == sst_image_view(sst_files@[i]@)
                },
                Err(e) => e == KeplerErr::Unrecoverable && (!crate::manifest::manifest_ok(
                    parse_manifest(manifest_bytes@),
                ) || sst_files@.len() > 0),
            },
            crate::manifest::manifest_ok(parse_manifest(manifest_bytes@)) && sst_files@.len() == 0
                ==> r is Ok,
    {
        let ghost all_empty = wal_files@.len() == 0 && manifest_bytes@.len() == 0
            && sst_files@.len() == 0;
        let inner = KeplerInner::new(wal_files, manifest_bytes, sst_files)?;
        proof {
            if all_empty {
                assert(seg_views(wal_files@) =~= Seq::<Seq<u8>>::empty());
                let recs = wal_records_of(seg_views(wal_files@));
                assert(recs =~= Seq::<crate::journal::LogRecord>::empty());
                let bd = vstd::wrapping::u64_specs::wrapping_add(
                    crate::manifest::manifest_max_seqno(parse_manifest(manifest_bytes@)),
                    1,
                );
                assert(replay_map(recs, bd) =~= Map::<Seq<u8>, (u64, Option<Seq<u8>>)>::empty());
                assert(drop_seqnos(replay_map(recs, bd)) =~= Map::<
                    Seq<u8>,
                    Option<Seq<u8>>,
                >::empty());
                assert(inner.spec_tables().spec_ssts().spec_tables() =~= Seq::<
                    crate::sstable::SSTable,
                >::empty());
                assert(ssts_merged(inner.spec_tables().spec_ssts().spec_tables()) =~= Map::<
                    Seq<u8>,
                    Option<Seq<u8>>,
                >::empty());
                assert(inner.spec_tables().spec_ssts()@.union_prefer_right(
                    drop_seqnos(replay_map(recs, bd)),
                ) =~= Map::<Seq<u8>, Option<Seq<u8>>>::empty());
            }
        }
        Ok(Kepler { inner })
    }

    /// Stores `val` under `key`.  Success is owed whenever the engine is
    /// not poisoned, both arguments fit their length fields, and no
    /// machine limit is hit mid-flush.
    pub fn insert(&mut self, key: &[u8], val: &[u8]) -> (r: KeplerResult<()>)
        requires
            old(self).wf(),
        ensures
            match r {
                Ok(()) => {
                    &&& !old(self).spec_poisoned()
                    &&& key@.len() <= u32::MAX
                    &&& val@.len() <= u32::MAX
                    &&& final(self).wf()
                    &&& !final(self).spec_poisoned()
                    &&& final(self)@ == old(self)@.insert(key@, Some(val@))
                },
                Err(e) => {
                    ||| (e == KeplerErr::Poisoned && old(self).spec_poisoned() && *final(self)
                        == *old(self))
                    ||| (e == KeplerErr::WalWrite && !old(self).spec_poisoned() && *final(self)
                        == *old(self) && (key@.len() > u32::MAX || val@.len() > u32::MAX))
                    ||| (e == KeplerErr::Unrecoverable && !old(self).spec_poisoned() && key@.len()
                        <= u32::MAX && val@.len() <= u32::MAX && old(self).spec_inner().spec_seqno()
                        == u64::MAX && final(self).spec_poisoned() && final(self).wf() && final(self)@ == old(self)@)
                    ||| (!old(self).spec_poisoned() && key@.len() <= u32::MAX && val@.len()
                        <= u32::MAX && old(self).spec_inner().spec_seqno() < u64::MAX && old(
                        self,
                    ).spec_inner().spec_tables().would_freeze(key@, val@.len()) && final(self).spec_poisoned() && final(self).wf() && final(self)@ == old(self)@.insert(
                        key@,
                        Some(val@),
                    ))
                },
            },
    {
        self.inner.put(key, Some(val))
    }

    /// Deletes `key`; deleting an absent key succeeds.  Success is owed
    /// whenever the engine is not poisoned, the key fits its length
    /// field, and no machine limit is hit mid-flush.
    pub fn remove(&mut self, key: &[u8]) -> (r: KeplerResult<()>)
        requires
            old(self).wf(),
        ensures
            match r {
                Ok(()) => {
                    &&& !old(self).spec_poisoned()
                    &&& key@.len() <= u32::MAX
                    &&& final(self).wf()
                    &&& !final(self).spec_poisoned()
                    &&& final(self)@ == old(self)@.insert(key@, None)
                },
                Err(e) => {
                    ||| (e == KeplerErr::Poisoned && old(self).spec_poisoned() && *final(self)
                        == *old(self))
                    ||| (e == KeplerErr::WalWrite && !old(self).spec_poisoned() && *final(self)
                        == *old(self) && key@.len() > u32::MAX)
                    ||| (e == KeplerErr::Unrecoverable && !old(self).spec_poisoned() && key@.len()
                        <= u32::MAX && old(self).spec_inner().spec_seqno() == u64::MAX && final(self).spec_poisoned() && final(self).wf() && final(self)@ == old(self)@)
                    ||| (!old(self).spec_poisoned() && key@.len() <= u32::MAX && old(
                        self,
                    ).spec_inner().spec_seqno() < u64::MAX && old(
                        self,
                    ).spec_inner().spec_tables().would_freeze(key@, 0) && final(self).spec_poisoned() && final(self).wf() && final(self)@ == old(self)@.insert(
                        key@,
                        None,
                    ))
                },
            },
    {
        self.inner.put(key, None)
    }

    /// Answers the bytes last stored under `key`, or nothing when it was
    /// never written or last deleted.
    pub fn get(&self, key: &[u8]) -> (r: KeplerResult<Option<Vec<u8>>>)
        requires
            self.wf(),
        ensures
            match r {
                Ok(Some(b)) => self@.contains_key(key@) && self@[key@] == Some(b@),
                Ok(None) => !self@.contains_key(key@) || self@[key@] is None,
                Err(e) => self.spec_poisoned(),
            },
    {
        self.inner.get(key)
    }

    /// The file images the engine's state stands on.
    pub fn into_files(self) -> (r: (Vec<Vec<u8>>, Vec<u8>, Vec<Vec<u8>>))
        ensures
            ({
                let (wal, manifest, ssts) = r;
                &&& seg_views(wal@) == self.spec_inner().spec_journal().spec_segments()
                &&& manifest@ == self.spec_inner().spec_manifest().spec_bytes()
                &&& ssts@.len() == self.spec_inner().spec_tables().spec_ssts().spec_tables().len()
                &&& forall|i: int|
                    0 <= i < ssts@.len() ==> (#[trigger] ssts@[i])@ == self.spec_inner().spec_tables().spec_ssts().spec_tables()[i].spec_data()
            }),
    {
        self.inner.into_files()
    }

    /// Number of journal segments.
    pub fn wal_segment_count(&self) -> (r: usize)
        ensures
            r == self.spec_inner().spec_journal().spec_segments().len(),
    {
        self.inner.wal_segment_count()
    }

    /// Borrows the bytes of journal segment `i`, which stands for the
    /// log file numbered `i + 1`.
    pub fn wal_segment(&self, i: usize) -> (r: &Vec<u8>)
        requires
            i < self.spec_inner().spec_journal().spec_segments().len(),
        ensures
            r@ == self.spec_inner().spec_journal().spec_segments()[i as int],
    {
        self.inner.wal_segment(i)
    }

    /// Borrows the manifest image.
    pub fn manifest_bytes(&self) -> (r: &Vec<u8>)
        ensures
            r@ == self.spec_inner().spec_manifest().spec_bytes(),
    {
        self.inner.manifest_bytes()
    }

    /// Number of live on-disk tables.
    pub fn sst_count(&self) -> (r: usize)
        ensures
            r == self.spec_inner().spec_tables().spec_ssts().spec_tables().len(),
    {
        self.inner.sst_count()
    }

    /// Borrows the file image of on-disk table `i`, oldest first.
    pub fn sst_bytes(&self, i: usize) -> (r: &Vec<u8>)
        requires
            i < self.spec_inner().spec_tables().spec_ssts().spec_tables().len(),
        ensures
            r@ == self.spec_inner().spec_tables().spec_ssts().spec_tables()[i as int].spec_data(),
    {
        self.inner.sst_bytes(i)
    }

    /// The number of the on-disk table at position `i`: what names its
    /// file.
    pub fn sst_id(&self, i: usize) -> (r: u64)
        requires
            i < self.spec_inner().spec_tables().spec_ssts().spec_tables().len(),
        ensures
            r == self.spec_inner().spec_tables().spec_ssts().spec_tables()[i as int].spec_id(),
    {
        self.inner.sst_id(i)
    }
}

/// Writing a key and reading it back answers the written bytes.
pub proof fn lemma_insert_then_get(m: Map<Seq<u8>, Option<Seq<u8>>>, k: Seq<u8>, v: Seq<u8>)
    ensures
        m.insert(k, Some(v)).contains_key(k),
        m.insert(k, Some(v))[k] == Some(v),
{
}

/// A second write to the same key shadows the first.
pub proof fn lemma_overwrite(
    m: Map<Seq<u8>, Option<Seq<u8>>>,
    k: Seq<u8>,
    v1: Seq<u8>,
    v2: Seq<u8>,
)
    ensures
        m.insert(k, Some(v1)).insert(k, Some(v2))[k] == Some(v2),
{
}

/// Deleting a key after writing it reads back as absent.
pub proof fn lemma_insert_then_remove(m: Map<Seq<u8>, Option<Seq<u8>>>, k: Seq<u8>, v: Seq<u8>)
    ensures
        m.insert(k, Some(v)).insert(k, None)[k] == None::<Seq<u8>>,
{
}

/// Deleting an absent key leaves it reading as absent.
pub proof fn lemma_remove_absent(m: Map<Seq<u8>, Option<Seq<u8>>>, k: Seq<u8>)
    requires
        !m.contains_key(k),
    ensures
        m.insert(k, None)[k] == None::<Seq<u8>>,
{
}

} // verus!
