use vstd::prelude::*;

use crate::error::{KeplerErr, KeplerResult};
use crate::sst_writer::FlushResult;
use crate::utils::{push_u64_le, read_u64_at};
use crate::version::{ids_set, ids_sorted, SSTInfo, Version};
use vstd::bytes::{
    lemma_auto_spec_u64_to_from_le_bytes, spec_u64_from_le_bytes, spec_u64_to_le_bytes,
};

verus! {

/// Size of one manifest frame:
/// `type(1) | sstno(8 LE) | max_seqno(8 LE) | min_seqno(8 LE)`.
pub const MANIFEST_RECORD_SIZE: usize = 25;

/// On-disk form of one manifest record.
pub open spec fn manifest_record_bytes(r: FlushResult) -> Seq<u8> {
    seq![r.t] + spec_u64_to_le_bytes(r.sstno) + spec_u64_to_le_bytes(r.max_seqno)
        + spec_u64_to_le_bytes(r.min_seqno)
}

/// The records a manifest image holds, reading 25-byte frames from the
/// front; a truncated tail frame is benign end of log.
pub open spec fn parse_manifest(bytes: Seq<u8>) -> Seq<FlushResult>
    decreases bytes.len(),
{
    if bytes.len() < 25 {
        Seq::empty()
    } else {
        let r = FlushResult {
            t: bytes[0],
            sstno: spec_u64_from_le_bytes(bytes.subrange(1, 9)),
            max_seqno: spec_u64_from_le_bytes(bytes.subrange(9, 17)),
            min_seqno: spec_u64_from_le_bytes(bytes.subrange(17, 25)),
        };
        seq![r] + parse_manifest(bytes.skip(25))
    }
}

/// Concatenated encodings of a record list.
pub open spec fn manifest_enc(rs: Seq<FlushResult>) -> Seq<u8>
    decreases rs.len(),
{
    if rs.len() == 0 {
        Seq::empty()
    } else {
        manifest_record_bytes(rs.first()) + manifest_enc(rs.drop_first())
    }
}

/// A manifest image that is exactly the encoding of its records.
pub open spec fn manifest_exact(s: Seq<u8>) -> bool {
    s == manifest_enc(parse_manifest(s))
}

/// Every record type is a known one.
pub open spec fn manifest_ok(rs: Seq<FlushResult>) -> bool {
    forall|i: int| 0 <= i < rs.len() ==> ((#[trigger] rs[i]).t == 0 || rs[i].t == 1)
}

/// The live table identifiers after replaying the records: additions
/// insert, removals delete.
pub open spec fn live_ids(rs: Seq<FlushResult>) -> Set<u64>
    decreases rs.len(),
{
    if rs.len() == 0 {
        Set::empty()
    } else {
        let s = live_ids(rs.drop_last());
        let r = rs.last();
        if r.t == 0 {
            s.insert(r.sstno)
        } else {
            s.remove(r.sstno)
        }
    }
}

/// Greatest sequence number any addition record covers, or zero.
pub open spec fn manifest_max_seqno(rs: Seq<FlushResult>) -> u64
    decreases rs.len(),
{
    if rs.len() == 0 {
        0
    } else {
        let m = manifest_max_seqno(rs.drop_last());
        let r = rs.last();
        if r.t == 0 && r.max_seqno > m {
            r.max_seqno
        } else {
            m
        }
    }
}

/// Greatest table number any addition record names, or zero.
pub open spec fn manifest_max_sstno(rs: Seq<FlushResult>) -> u64
    decreases rs.len(),
{
    if rs.len() == 0 {
        0
    } else {
        let m = manifest_max_sstno(rs.drop_last());
        let r = rs.last();
        if r.t == 0 && r.sstno > m {
            r.sstno
        } else {
            m
        }
    }
}

pub proof fn lemma_manifest_record_bytes_len(r: FlushResult)
    ensures
        manifest_record_bytes(r).len() == 25,
{
    lemma_auto_spec_u64_to_from_le_bytes();
}

/// Parsing an encoded record off the front of any tail recovers the
/// record and leaves the tail.
pub proof fn lemma_parse_manifest_prepend(r: FlushResult, rest: Seq<u8>)
    ensures
        parse_manifest(manifest_record_bytes(r) + rest) == seq![r] + parse_manifest(rest),
{
    lemma_auto_spec_u64_to_from_le_bytes();
    let enc = manifest_record_bytes(r);
    let bytes = enc + rest;
    assert(enc.len() == 25);
    assert(bytes[0] == r.t);
    assert(bytes.subrange(1, 9) =~= spec_u64_to_le_bytes(r.sstno));
    assert(bytes.subrange(9, 17) =~= spec_u64_to_le_bytes(r.max_seqno));
    assert(bytes.subrange(17, 25) =~= spec_u64_to_le_bytes(r.min_seqno));
    assert(bytes.skip(25) =~= rest);
    let parsed = FlushResult {
        t: bytes[0],
        sstno: spec_u64_from_le_bytes(bytes.subrange(1, 9)),
        max_seqno: spec_u64_from_le_bytes(bytes.subrange(9, 17)),
        min_seqno: spec_u64_from_le_bytes(bytes.subrange(17, 25)),
    };
    assert(parsed == r);
    assert(seq![parsed] =~= seq![r]);
}

/// Encoding distributes over appending one record.
pub proof fn lemma_manifest_enc_push(rs: Seq<FlushResult>, r: FlushResult)
    ensures
        manifest_enc(rs.push(r)) == manifest_enc(rs) + manifest_record_bytes(r),
    decreases rs.len(),
{
    if rs.len() == 0 {
        assert(rs.push(r).drop_first() =~= Seq::<FlushResult>::empty());
        assert(rs.push(r).first() == r);
        assert(manifest_enc(Seq::<FlushResult>::empty()) == Seq::<u8>::empty());
        assert(manifest_enc(rs.push(r)) =~= manifest_record_bytes(r) + Seq::<u8>::empty());
        assert(manifest_enc(rs) + manifest_record_bytes(r) =~= manifest_record_bytes(r));
        assert(manifest_record_bytes(r) + Seq::<u8>::empty() =~= manifest_record_bytes(r));
    } else {
        assert(rs.push(r).first() == rs.first());
        assert(rs.push(r).drop_first() =~= rs.drop_first().push(r));
        lemma_manifest_enc_push(rs.drop_first(), r);
        assert(manifest_record_bytes(rs.first()) + (manifest_enc(rs.drop_first())
            + manifest_record_bytes(r)) =~= (manifest_record_bytes(rs.first()) + manifest_enc(
            rs.drop_first(),
        )) + manifest_record_bytes(r));
    }
}

/// Appending one encoded record to an exact manifest keeps it exact and
/// appends the record to what it parses to.
pub proof fn lemma_manifest_append(s: Seq<u8>, r: FlushResult)
    requires
        manifest_exact(s),
    ensures
        parse_manifest(s + manifest_record_bytes(r)) == parse_manifest(s).push(r),
        manifest_exact(s + manifest_record_bytes(r)),
    decreases parse_manifest(s).len(),
{
    let rs = parse_manifest(s);
    lemma_manifest_concat(rs, manifest_record_bytes(r));
    assert(manifest_record_bytes(r) =~= manifest_record_bytes(r) + Seq::<u8>::empty());
    lemma_parse_manifest_prepend(r, Seq::<u8>::empty());
    assert(parse_manifest(Seq::<u8>::empty()) =~= Seq::<FlushResult>::empty());
    assert(parse_manifest(manifest_record_bytes(r)) =~= seq![r]);
    assert(parse_manifest(s + manifest_record_bytes(r)) =~= rs.push(r));
    lemma_manifest_enc_push(rs, r);
}

/// Parsing an exactly encoded record list followed by any tail yields
/// the list and the tail's records.
pub proof fn lemma_manifest_concat(rs: Seq<FlushResult>, suffix: Seq<u8>)
    ensures
        parse_manifest(manifest_enc(rs) + suffix) == rs + parse_manifest(suffix),
    decreases rs.len(),
{
    if rs.len() == 0 {
        assert(manifest_enc(rs) + suffix =~= suffix);
        assert(rs + parse_manifest(suffix) =~= parse_manifest(suffix));
    } else {
        let r = rs.first();
        let rest = rs.drop_first();
        assert(manifest_enc(rs) + suffix =~= manifest_record_bytes(r) + (manifest_enc(rest)
            + suffix));
        lemma_parse_manifest_prepend(r, manifest_enc(rest) + suffix);
        lemma_manifest_concat(rest, suffix);
        assert(seq![r] + (rest + parse_manifest(suffix)) =~= rs + parse_manifest(suffix));
    }
}

/// Dropping a truncated tail frame keeps the records and leaves an
/// image that is exactly their encoding.
pub proof fn lemma_manifest_prefix(b: Seq<u8>)
    ensures
        parse_manifest(b.take(b.len() - (b.len() % 25))) == parse_manifest(b),
        manifest_exact(b.take(b.len() - (b.len() % 25))),
    decreases b.len(),
{
    lemma_auto_spec_u64_to_from_le_bytes();
    let keep = b.len() - (b.len() % 25);
    let t = b.take(keep as int);
    if b.len() < 25 {
        assert(keep == 0);
        assert(t =~= Seq::<u8>::empty());
        assert(parse_manifest(t) =~= Seq::<FlushResult>::empty());
        assert(parse_manifest(b) =~= Seq::<FlushResult>::empty());
        assert(manifest_enc(Seq::<FlushResult>::empty()) == Seq::<u8>::empty());
        assert(manifest_enc(parse_manifest(t)) =~= t);
    } else {
        let r = FlushResult {
            t: b[0],
            sstno: spec_u64_from_le_bytes(b.subrange(1, 9)),
            max_seqno: spec_u64_from_le_bytes(b.subrange(9, 17)),
            min_seqno: spec_u64_from_le_bytes(b.subrange(17, 25)),
        };
        assert(t.len() == keep >= 25);
        assert(t.subrange(1, 9) =~= b.subrange(1, 9));
        assert(t.subrange(9, 17) =~= b.subrange(9, 17));
        assert(t.subrange(17, 25) =~= b.subrange(17, 25));
        assert(t[0] == b[0]);
        let rest = b.skip(25);
        lemma_manifest_prefix(rest);
        assert(rest.len() % 25 == b.len() % 25);
        assert(t.skip(25) =~= rest.take(rest.len() - (rest.len() % 25)));
        assert(parse_manifest(t) == seq![r] + parse_manifest(t.skip(25)));
        assert(parse_manifest(b) == seq![r] + parse_manifest(rest));
        assert(parse_manifest(t.skip(25)) == parse_manifest(rest));
        // the first frame re-encodes to its own bytes
        assert(manifest_record_bytes(r) =~= b.subrange(0, 25));
        let rs = parse_manifest(t);
        assert(rs.first() == r);
        assert(rs.drop_first() =~= parse_manifest(t.skip(25)));
        assert(manifest_enc(rs) == manifest_record_bytes(r) + manifest_enc(
            parse_manifest(t.skip(25)),
        ));
        assert(manifest_enc(parse_manifest(t.skip(25))) == t.skip(25));
        assert(manifest_enc(rs) =~= t);
    }
}

/// The append-only manifest image: the record of table births and
/// deaths that recovery treats as the truth.
pub struct Manifest {
    log: Vec<u8>,
}

impl Manifest {
    /// The manifest bytes.
    pub closed spec fn spec_bytes(&self) -> Seq<u8> {
        self.log@
    }

    /// The records the image holds.
    pub open spec fn records(&self) -> Seq<FlushResult> {
        parse_manifest(self.spec_bytes())
    }

    pub open spec fn wf(&self) -> bool {
        manifest_exact(self.spec_bytes())
    }

    /// Opens the manifest over an existing image and replays it into a
    /// [`Version`]; a truncated tail frame, benign end of log, is
    /// dropped before further appends.  Fails if and only if a record of
    /// unknown type stands in the image.
    pub fn new(log: Vec<u8>) -> (r: KeplerResult<(Manifest, Version)>)
        ensures
            match r {
                Ok((m, v)) => {
                    &&& manifest_ok(parse_manifest(log@))
                    &&& m.wf()
                    &&& m.records() == parse_manifest(log@)
                    &&& v.wf()
                    &&& ids_set(v.spec_ids()) == live_ids(parse_manifest(log@))
                    &&& v.next_seqno == vstd::wrapping::u64_specs::wrapping_add(
                        manifest_max_seqno(parse_manifest(log@)),
                        1,
                    )
                    &&& v.next_sstno == vstd::wrapping::u64_specs::wrapping_add(
                        manifest_max_sstno(parse_manifest(log@)),
                        1,
                    )
                },
                Err(e) => !manifest_ok(parse_manifest(log@)) && e is ManifestCorrupted,
            },
    {
        let version = restore_sst_list(&log)?;
        let mut log = log;
        let ghost b0 = log@;
        let keep = log.len() - (log.len() % MANIFEST_RECORD_SIZE);
        log.truncate(keep);
        proof {
            lemma_manifest_prefix(b0);
            assert(log@ == b0.take(b0.len() - (b0.len() % 25)));
        }
        Ok((Manifest { log }, version))
    }

    /// Appends one 25-byte record.
    pub fn send(&mut self, result: FlushResult) -> (r: KeplerResult<()>)
        requires
            old(self).wf(),
        ensures
            r == Ok::<(), KeplerErr>(()),
            final(self).wf(),
            final(self).records() == old(self).records().push(result),
            final(self).spec_bytes() == old(self).spec_bytes() + manifest_record_bytes(result),
    {
        let ghost before = self.log@;
        self.log.push(result.t);
        push_u64_le(&mut self.log, result.sstno);
        push_u64_le(&mut self.log, result.max_seqno);
        push_u64_le(&mut self.log, result.min_seqno);
        proof {
            assert(self.log@ =~= before + manifest_record_bytes(result));
            lemma_manifest_append(before, result);
        }
        Ok(())
    }

    /// Gives up the manifest image.
    pub fn into_bytes(self) -> (r: Vec<u8>)
        ensures
            r@ == self.spec_bytes(),
    {
        self.log
    }

    /// Borrows the manifest image.
    pub fn bytes(&self) -> (r: &Vec<u8>)
        ensures
            r@ == self.spec_bytes(),
    {
        &self.log
    }
}

/// Inserts `id` into a sorted list of table infos, keeping it sorted; a
/// duplicate leaves the list as it stands.
fn sst_list_insert(list: &mut Vec<SSTInfo>, id: u64)
    requires
        ids_sorted(old(list)@),
    ensures
        ids_sorted(final(list)@),
        ids_set(final(list)@) == ids_set(old(list)@).insert(id),
{
    let mut i: usize = 0;
    let n = list.len();
    while i < n && list[i].id < id
        invariant
            i <= n,
            n == list@.len(),
            ids_sorted(list@),
            list@ == old(list)@,
            forall|j: int| 0 <= j < i ==> (#[trigger] list@[j]).id < id,
        decreases n - i,
    {
        i = i + 1;
    }
    if i < n && list[i].id == id {
        proof {
            assert(ids_set(list@).insert(id) =~= ids_set(list@));
        }
        return ;
    }
    let ghost s = list@;
    list.insert(i, SSTInfo::new(id));
    proof {
        let t = list@;
        assert(t == s.insert(i as int, SSTInfo { id }));
        assert forall|p: int, q: int| 0 <= p < q < t.len() implies (#[trigger] t[p]).id < (
        #[trigger] t[q]).id by {
            if p == i {
                assert(t[q] == s[q - 1]);
                assert(s[q - 1].id >= id);
                assert(s[q - 1].id != id);
            } else if q == i {
                assert(t[p] == s[p]);
            } else {
                let p0: int = if p < i {
                    p
                } else {
                    p - 1
                };
                let q0: int = if q < i {
                    q
                } else {
                    q - 1
                };
                assert(t[p] == s[p0]);
                assert(t[q] == s[q0]);
                if i <= q0 {
                    assert(s[q0].id >= id);
                }
            }
        }
        assert forall|x: u64| ids_set(t).contains(x) <==> ids_set(s).insert(id).contains(x) by {
            if ids_set(t).contains(x) {
                let k = choose|k: int| 0 <= k < t.len() && (#[trigger] t[k]).id == x;
                if k == i {
                } else if k < i {
                    assert(s[k].id == x);
                } else {
                    assert(s[k - 1].id == x);
                }
            }
            if x == id {
                assert(t[i as int].id == x);
            } else if ids_set(s).contains(x) {
                let k = choose|k: int| 0 <= k < s.len() && (#[trigger] s[k]).id == x;
                if k < i {
                    assert(t[k].id == x);
                } else {
                    assert(t[k + 1].id == x);
                }
            }
        }
        assert(ids_set(t) =~= ids_set(s).insert(id));
    }
}

/// Removes `id` from a sorted list of table infos; an absent identifier
/// leaves the list as it stands.
fn sst_list_remove(list: &mut Vec<SSTInfo>, id: u64)
    requires
        ids_sorted(old(list)@),
    ensures
        ids_sorted(final(list)@),
        ids_set(final(list)@) == ids_set(old(list)@).remove(id),
{
    let mut i: usize = 0;
    let n = list.len();
    while i < n && list[i].id < id
        invariant
            i <= n,
            n == list@.len(),
            ids_sorted(list@),
            list@ == old(list)@,
            forall|j: int| 0 <= j < i ==> (#[trigger] list@[j]).id < id,
        decreases n - i,
    {
        i = i + 1;
    }
    if i < n && list[i].id == id {
        let ghost s = list@;
        list.remove(i);
        proof {
            let t = list@;
            assert(t == s.remove(i as int));
            assert forall|p: int, q: int| 0 <= p < q < t.len() implies (#[trigger] t[p]).id < (
            #[trigger] t[q]).id by {
                let p0: int = if p < i {
                    p
                } else {
                    p + 1
                };
                let q0: int = if q < i {
                    q
                } else {
                    q + 1
                };
                assert(t[p] == s[p0]);
                assert(t[q] == s[q0]);
            }
            assert forall|x: u64| ids_set(t).contains(x) <==> ids_set(s).remove(id).contains(
                x,
            ) by {
                if ids_set(t).contains(x) {
                    let k = choose|k: int| 0 <= k < t.len() && (#[trigger] t[k]).id == x;
                    if k < i {
                        assert(s[k].id == x);
                        assert(x != id);
                    } else {
                        assert(s[k + 1].id == x);
                        assert(s[k + 1].id > s[i as int].id);
                        assert(x != id);
                    }
                }
                if x != id && ids_set(s).contains(x) {
                    let k = choose|k: int| 0 <= k < s.len() && (#[trigger] s[k]).id == x;
                    if k < i {
                        assert(t[k].id == x);
                    } else {
                        assert(k != i);
                        assert(t[k - 1].id == x);
                    }
                }
            }
            assert(ids_set(t) =~= ids_set(s).remove(id));
        }
    } else {
        proof {
            assert forall|x: u64|
                ids_set(list@).contains(x) <==> ids_set(list@).remove(id).contains(x) by {
                if ids_set(list@).contains(x) {
                    let k = choose|k: int| 0 <= k < list@.len() && (#[trigger] list@[k]).id == x;
                    if x == id {
                        assert(list@[k].id == id);
                        if k < i {
                        } else {
                            assert(list@[k].id >= id);
                            assert(list@[k].id == id);
                            assert(k >= i);
                            assert(i < list@.len() ==> list@[i as int].id != id);
                            if k > i {
                                assert(list@[i as int].id < list@[k].id);
                                assert(list@[i as int].id >= id);
                            }
                        }
                    }
                }
            }
            assert(ids_set(list@) =~= ids_set(list@).remove(id));
        }
    }
}

/// Replays the manifest image into a [`Version`]: additions insert a
/// table, removals delete it, and the next sequence and table numbers
/// are one past the greatest seen.  A record of unknown type is a
/// corrupt manifest; a truncated tail frame is benign end of log.
pub fn restore_sst_list(data: &Vec<u8>) -> (r: KeplerResult<Version>)
    ensures
        match r {
            Ok(v) => {
                &&& manifest_ok(parse_manifest(data@))
                &&& v.wf()
                &&& ids_set(v.spec_ids()) == live_ids(parse_manifest(data@))
                &&& v.next_seqno == vstd::wrapping::u64_specs::wrapping_add(
                    manifest_max_seqno(parse_manifest(data@)),
                    1,
                )
                &&& v.next_sstno == vstd::wrapping::u64_specs::wrapping_add(
                    manifest_max_sstno(parse_manifest(data@)),
                    1,
                )
            },
            Err(e) => !manifest_ok(parse_manifest(data@)) && e is ManifestCorrupted,
        },
{
    let mut sst_list: Vec<SSTInfo> = Vec::new();
    let mut max_seqno: u64 = 0;
    let mut max_sstno: u64 = 0;
    let data_len = data.len();
    let mut idx: usize = 0;
    let ghost mut done: Seq<FlushResult> = Seq::empty();
    proof {
        assert(data@.skip(0) =~= data@);
        assert(ids_set(sst_list@) =~= Set::<u64>::empty());
    }
    loop
        invariant_except_break
            idx <= data_len,
            data_len == data@.len(),
            parse_manifest(data@) == done + parse_manifest(data@.skip(idx as int)),
            manifest_ok(done),
            ids_sorted(sst_list@),
            ids_set(sst_list@) == live_ids(done),
            max_seqno == manifest_max_seqno(done),
            max_sstno == manifest_max_sstno(done),
        ensures
            manifest_ok(parse_manifest(data@)),
            ids_sorted(sst_list@),
            ids_set(sst_list@) == live_ids(parse_manifest(data@)),
            max_seqno == manifest_max_seqno(parse_manifest(data@)),
            max_sstno == manifest_max_sstno(parse_manifest(data@)),
        decreases data_len - idx,
    {
        if data_len - idx < MANIFEST_RECORD_SIZE {
            proof {
                assert(parse_manifest(data@.skip(idx as int)) =~= Seq::<FlushResult>::empty());
                assert(done + Seq::<FlushResult>::empty() =~= done);
            }
            break ;
        }
        let t = data[idx];
        let sstno = read_u64_at(data, idx + 1);
        let rec_max = read_u64_at(data, idx + 9);
        let rec_min = read_u64_at(data, idx + 17);
        let ghost tail = data@.skip(idx as int);
        let ghost rec = FlushResult { t, sstno, max_seqno: rec_max, min_seqno: rec_min };
        proof {
            assert(tail[0] == data@[idx as int]);
            assert(tail.subrange(1, 9) =~= data@.subrange(idx + 1, idx + 9));
            assert(tail.subrange(9, 17) =~= data@.subrange(idx + 9, idx + 17));
            assert(tail.subrange(17, 25) =~= data@.subrange(idx + 17, idx + 25));
            assert(parse_manifest(tail) == seq![rec] + parse_manifest(tail.skip(25)));
        }
        if t == 0 {
            if sstno > max_sstno {
                max_sstno = sstno;
            }
            if rec_max > max_seqno {
                max_seqno = rec_max;
            }
            sst_list_insert(&mut sst_list, sstno);
        } else if t == 1 {
            sst_list_remove(&mut sst_list, sstno);
        } else {
            proof {
                assert(parse_manifest(data@)[done.len() as int] == rec);
                assert(!manifest_ok(parse_manifest(data@)));
            }
            return Err(KeplerErr::ManifestCorrupted(#[verifier::truncate] (sstno as usize)));
        }
        proof {
            let done2 = done.push(rec);
            assert((done2).drop_last() =~= done);
            assert((done2).last() == rec);
            assert(tail.skip(25) =~= data@.skip(idx + 25));
            assert(parse_manifest(data@) =~= done2 + parse_manifest(data@.skip(idx + 25)));
            done = done2;
        }
        idx = idx + MANIFEST_RECORD_SIZE;
    }
    Ok(Version::new(sst_list, max_seqno.wrapping_add(1), max_sstno.wrapping_add(1)))
}

} // verus!
