use vstd::prelude::*;

use crate::error::{KeplerErr, KeplerResult};
use crate::mem_table::{opt_bytes, opt_len, MemTable};
use crate::utils::{push_bytes, push_u32_le, push_u64_le, read_u32_at, read_u64_at};
use vstd::bytes::{
    lemma_auto_spec_u32_to_from_le_bytes, lemma_auto_spec_u64_to_from_le_bytes,
    spec_u32_from_le_bytes, spec_u32_to_le_bytes, spec_u64_from_le_bytes, spec_u64_to_le_bytes,
};

verus! {

/// Fixed bytes of one journal record before its key and value: sequence
/// number, type byte, and the two length fields.
pub const WAL_HEADER_SIZE: usize = 17;

/// A journal segment rotates once it holds at least this many bytes.
pub const WAL_CAP_LIMIT: u64 = 64 * 1024 * 1024;

/// One logical journal record: a write (`Some` bytes) or a delete
/// (`None`, the tombstone) of a key, stamped with its sequence number.
pub struct LogRecord {
    pub seqno: u64,
    pub key: Seq<u8>,
    pub value: Option<Seq<u8>>,
}

/// Type byte of a record: 0 for a put, 1 for a delete.
pub open spec fn record_type_byte(r: LogRecord) -> u8 {
    match r.value {
        Some(_) => 0,
        None => 1,
    }
}

/// The value bytes a record carries; a tombstone carries none.
pub open spec fn record_val_bytes(r: LogRecord) -> Seq<u8> {
    match r.value {
        Some(v) => v,
        None => Seq::empty(),
    }
}

/// Key and value short enough for their four-byte length fields.
pub open spec fn record_wf(r: LogRecord) -> bool {
    &&& r.key.len() <= u32::MAX
    &&& record_val_bytes(r).len() <= u32::MAX
}

/// On-disk form of one record:
/// `seqno(8 LE) | type(1) | key_len(4 LE) | val_len(4 LE) | key | value`.
pub open spec fn wal_record_bytes(r: LogRecord) -> Seq<u8> {
    spec_u64_to_le_bytes(r.seqno) + seq![record_type_byte(r)] + spec_u32_to_le_bytes(
        r.key.len() as u32,
    ) + spec_u32_to_le_bytes(record_val_bytes(r).len() as u32) + r.key + record_val_bytes(r)
}

/// The records a byte sequence holds, reading from the front until the
/// bytes run out mid-record: a truncated or malformed tail is benign end
/// of log.
pub open spec fn parse_wal(bytes: Seq<u8>) -> Seq<LogRecord>
    decreases bytes.len(),
{
    if bytes.len() < 17 {
        Seq::empty()
    } else {
        let seqno = spec_u64_from_le_bytes(bytes.subrange(0, 8));
        let t = bytes[8];
        let key_len = spec_u32_from_le_bytes(bytes.subrange(9, 13)) as int;
        let val_len = spec_u32_from_le_bytes(bytes.subrange(13, 17)) as int;
        let total = 17 + key_len + val_len;
        if (t == 0 || t == 1) && (t == 1 ==> val_len == 0) && total <= bytes.len() {
            let key = bytes.subrange(17, 17 + key_len);
            let value = if t == 0 {
                Some(bytes.subrange(17 + key_len, total))
            } else {
                None
            };
            seq![LogRecord { seqno, key, value }] + parse_wal(bytes.skip(total))
        } else {
            Seq::empty()
        }
    }
}

/// Concatenated encodings of a record list.
pub open spec fn wal_enc(rs: Seq<LogRecord>) -> Seq<u8>
    decreases rs.len(),
{
    if rs.len() == 0 {
        Seq::empty()
    } else {
        wal_record_bytes(rs.first()) + wal_enc(rs.drop_first())
    }
}

/// Every record of the list fits its length fields.
pub open spec fn records_wf(rs: Seq<LogRecord>) -> bool {
    forall|i: int| 0 <= i < rs.len() ==> record_wf(#[trigger] rs[i])
}

/// A segment that is exactly the encoding of the records it parses to:
/// what the journal's own appends always leave behind.
pub open spec fn wal_seg_exact(s: Seq<u8>) -> bool {
    s == wal_enc(parse_wal(s))
}

pub proof fn lemma_wal_record_bytes_len(r: LogRecord)
    requires
        record_wf(r),
    ensures
        wal_record_bytes(r).len() == 17 + r.key.len() + record_val_bytes(r).len(),
{
    lemma_auto_spec_u64_to_from_le_bytes();
    lemma_auto_spec_u32_to_from_le_bytes();
}

/// Parsing an encoded record off the front of any tail recovers the
/// record and leaves the tail.
pub proof fn lemma_parse_wal_prepend(r: LogRecord, rest: Seq<u8>)
    requires
        record_wf(r),
    ensures
        parse_wal(wal_record_bytes(r) + rest) == seq![r] + parse_wal(rest),
{
    lemma_auto_spec_u64_to_from_le_bytes();
    lemma_auto_spec_u32_to_from_le_bytes();
    let enc = wal_record_bytes(r);
    let bytes = enc + rest;
    let klen = r.key.len() as int;
    let vlen = record_val_bytes(r).len() as int;
    let total = 17 + klen + vlen;
    assert(enc.len() == total);
    assert(bytes.subrange(0, 8) =~= spec_u64_to_le_bytes(r.seqno));
    assert(bytes[8] == record_type_byte(r));
    assert(bytes.subrange(9, 13) =~= spec_u32_to_le_bytes(r.key.len() as u32));
    assert(bytes.subrange(13, 17) =~= spec_u32_to_le_bytes(record_val_bytes(r).len() as u32));
    assert(spec_u64_from_le_bytes(bytes.subrange(0, 8)) == r.seqno);
    assert(spec_u32_from_le_bytes(bytes.subrange(9, 13)) == r.key.len() as u32);
    assert(spec_u32_from_le_bytes(bytes.subrange(13, 17)) == record_val_bytes(r).len() as u32);
    assert(bytes.subrange(17, 17 + klen) =~= r.key);
    assert(bytes.subrange(17 + klen, total) =~= record_val_bytes(r));
    assert(bytes.skip(total) =~= rest);
    let t = record_type_byte(r);
    let parsed = LogRecord {
        seqno: spec_u64_from_le_bytes(bytes.subrange(0, 8)),
        key: bytes.subrange(17, 17 + klen),
        value: if t == 0 {
            Some(bytes.subrange(17 + klen, total))
        } else {
            None
        },
    };
    assert(parsed.seqno == r.seqno);
    assert(parsed.key == r.key);
    if t == 0 {
        assert(parsed.value == r.value);
    } else {
        assert(r.value is None);
        assert(parsed.value == r.value);
    }
    assert(parse_wal(bytes) == seq![parsed] + parse_wal(bytes.skip(total)));
    assert(seq![parsed] =~= seq![r]);
}

/// Whatever a byte sequence parses to is well formed.
pub proof fn lemma_parse_records_wf(bytes: Seq<u8>)
    ensures
        records_wf(parse_wal(bytes)),
    decreases bytes.len(),
{
    let rs = parse_wal(bytes);
    if rs.len() > 0 {
        let key_len = spec_u32_from_le_bytes(bytes.subrange(9, 13)) as int;
        let val_len = spec_u32_from_le_bytes(bytes.subrange(13, 17)) as int;
        let total = 17 + key_len + val_len;
        lemma_parse_records_wf(bytes.skip(total));
        assert forall|i: int| 0 <= i < rs.len() implies record_wf(#[trigger] rs[i]) by {
            if i == 0 {
                assert(rs[0].key.len() == key_len);
            } else {
                assert(rs[i] == parse_wal(bytes.skip(total))[i - 1]);
            }
        }
    }
}

/// Parsing an exactly encoded record list followed by any tail yields the
/// list and the tail's records.
pub proof fn lemma_parse_enc_concat(rs: Seq<LogRecord>, suffix: Seq<u8>)
    requires
        records_wf(rs),
    ensures
        parse_wal(wal_enc(rs) + suffix) == rs + parse_wal(suffix),
    decreases rs.len(),
{
    if rs.len() == 0 {
        assert(wal_enc(rs) + suffix =~= suffix);
        assert(rs + parse_wal(suffix) =~= parse_wal(suffix));
    } else {
        let r = rs.first();
        let rest = rs.drop_first();
        assert(record_wf(r));
        assert(records_wf(rest)) by {
            assert forall|i: int| 0 <= i < rest.len() implies record_wf(#[trigger] rest[i]) by {
                assert(rest[i] == rs[i + 1]);
            }
        }
        assert(wal_enc(rs) + suffix =~= wal_record_bytes(r) + (wal_enc(rest) + suffix));
        lemma_parse_wal_prepend(r, wal_enc(rest) + suffix);
        lemma_parse_enc_concat(rest, suffix);
        assert(seq![r] + (rest + parse_wal(suffix)) =~= rs + parse_wal(suffix));
    }
}

/// Appending one encoded record to an exact segment keeps it exact and
/// appends the record to what it parses to.
pub proof fn lemma_wal_append(seg: Seq<u8>, r: LogRecord)
    requires
        wal_seg_exact(seg),
        record_wf(r),
    ensures
        parse_wal(seg + wal_record_bytes(r)) == parse_wal(seg).push(r),
        wal_seg_exact(seg + wal_record_bytes(r)),
{
    let rs = parse_wal(seg);
    lemma_parse_records_wf(seg);
    lemma_parse_enc_concat(rs, wal_record_bytes(r));
    assert(wal_record_bytes(r) =~= wal_record_bytes(r) + Seq::<u8>::empty());
    lemma_parse_wal_prepend(r, Seq::<u8>::empty());
    assert(parse_wal(Seq::<u8>::empty()) =~= Seq::<LogRecord>::empty());
    assert(parse_wal(wal_record_bytes(r)) =~= seq![r]);
    assert(parse_wal(seg + wal_record_bytes(r)) =~= rs.push(r));
    // exactness of the grown segment
    let rs2 = parse_wal(seg + wal_record_bytes(r));
    assert(wal_enc(rs2) =~= seg + wal_record_bytes(r)) by {
        lemma_wal_enc_push(rs, r);
    }
}

/// Encoding distributes over appending one record.
pub proof fn lemma_wal_enc_push(rs: Seq<LogRecord>, r: LogRecord)
    ensures
        wal_enc(rs.push(r)) == wal_enc(rs) + wal_record_bytes(r),
    decreases rs.len(),
{
    if rs.len() == 0 {
        assert(rs.push(r).drop_first() =~= Seq::<LogRecord>::empty());
        assert(rs.push(r).first() == r);
        assert(wal_enc(Seq::<LogRecord>::empty()) == Seq::<u8>::empty());
        assert(wal_enc(rs.push(r)) =~= wal_record_bytes(r) + Seq::<u8>::empty());
        assert(wal_enc(rs) + wal_record_bytes(r) =~= wal_record_bytes(r));
        assert(wal_record_bytes(r) + Seq::<u8>::empty() =~= wal_record_bytes(r));
    } else {
        assert(rs.push(r).first() == rs.first());
        assert(rs.push(r).drop_first() =~= rs.drop_first().push(r));
        lemma_wal_enc_push(rs.drop_first(), r);
        assert(wal_record_bytes(rs.first()) + (wal_enc(rs.drop_first()) + wal_record_bytes(r))
            =~= (wal_record_bytes(rs.first()) + wal_enc(rs.drop_first())) + wal_record_bytes(r));
    }
}

/// The views of a list of byte vectors.
pub open spec fn seg_views(s: Seq<Vec<u8>>) -> Seq<Seq<u8>> {
    Seq::new(s.len(), |i: int| s[i]@)
}

/// All records of a list of segments, in segment order.
pub open spec fn wal_records_of(segs: Seq<Seq<u8>>) -> Seq<LogRecord>
    decreases segs.len(),
{
    if segs.len() == 0 {
        Seq::empty()
    } else {
        wal_records_of(segs.drop_last()) + parse_wal(segs.last())
    }
}

/// The mapping that replaying records on or past the `boundary` sequence
/// number builds: later records shadow earlier ones.
pub open spec fn replay_map(rs: Seq<LogRecord>, boundary: u64) -> Map<
    Seq<u8>,
    (u64, Option<Seq<u8>>),
>
    decreases rs.len(),
{
    if rs.len() == 0 {
        Map::empty()
    } else {
        let m = replay_map(rs.drop_last(), boundary);
        let r = rs.last();
        if r.seqno >= boundary {
            m.insert(r.key, (r.seqno, r.value))
        } else {
            m
        }
    }
}

/// The greatest sequence number replayed, or the boundary itself if none
/// was.
pub open spec fn replay_max(rs: Seq<LogRecord>, boundary: u64) -> u64
    decreases rs.len(),
{
    if rs.len() == 0 {
        boundary
    } else {
        let m = replay_max(rs.drop_last(), boundary);
        let r = rs.last();
        if r.seqno >= boundary && r.seqno > m {
            r.seqno
        } else {
            m
        }
    }
}

/// All records across any segments are well formed.
pub proof fn lemma_wal_records_wf(segs: Seq<Seq<u8>>)
    ensures
        records_wf(wal_records_of(segs)),
    decreases segs.len(),
{
    if segs.len() > 0 {
        lemma_wal_records_wf(segs.drop_last());
        lemma_parse_records_wf(segs.last());
        let a = wal_records_of(segs.drop_last());
        let b = parse_wal(segs.last());
        assert forall|i: int| 0 <= i < (a + b).len() implies record_wf(#[trigger] (a + b)[i]) by {
            if i < a.len() {
                assert((a + b)[i] == a[i]);
            } else {
                assert((a + b)[i] == b[i - a.len()]);
            }
        }
    }
}

/// Replaying well-formed records builds a bounded mapping.
pub proof fn lemma_replay_map_bounded(rs: Seq<LogRecord>, boundary: u64)
    requires
        records_wf(rs),
    ensures
        crate::mem_table::map_bounded(replay_map(rs, boundary)),
    decreases rs.len(),
{
    if rs.len() == 0 {
        assert forall|k: Seq<u8>| #[trigger] replay_map(rs, boundary).dom().contains(k) implies
            k.len() <= u32::MAX && crate::mem_table::stored_len(replay_map(rs, boundary)[k].1)
            <= u32::MAX by {}
    } else {
        assert(records_wf(rs.drop_last())) by {
            assert forall|i: int| 0 <= i < rs.drop_last().len() implies record_wf(
                #[trigger] rs.drop_last()[i],
            ) by {
                assert(rs.drop_last()[i] == rs[i]);
            }
        }
        lemma_replay_map_bounded(rs.drop_last(), boundary);
        let r = rs.last();
        assert(record_wf(r)) by {
            assert(rs[rs.len() - 1] == r);
        }
        let m = replay_map(rs.drop_last(), boundary);
        assert forall|k: Seq<u8>| #[trigger] replay_map(rs, boundary).dom().contains(k) implies
            k.len() <= u32::MAX && crate::mem_table::stored_len(replay_map(rs, boundary)[k].1)
            <= u32::MAX by {
            if r.seqno >= boundary && k == r.key {
                assert(crate::mem_table::stored_len(r.value) == record_val_bytes(r).len());
            } else {
                assert(m.dom().contains(k));
            }
        }
    }
}

/// Identifier of one numbered log file.
#[derive(Debug, Clone, Copy, PartialEq, Eq, Structural)]
pub struct FileId(pub u64);

/// The write-ahead journal: an ordered list of append-only segment
/// images, the last of which is active.  Segment `i` stands for the log
/// file numbered `i + 1`.
pub struct Journal {
    segments: Vec<Vec<u8>>,
    bytes_written: u64,
}

impl Journal {
    /// The segment byte images, oldest first.
    pub closed spec fn spec_segments(&self) -> Seq<Seq<u8>> {
        seg_views(self.segments@)
    }

    /// All records across the segments, oldest first.
    pub open spec fn records(&self) -> Seq<LogRecord> {
        wal_records_of(self.spec_segments())
    }

    /// Identifier of the active segment.
    pub open spec fn spec_id(&self) -> int {
        self.spec_segments().len() as int
    }

    /// Bytes appended to the active segment since it was opened.
    pub closed spec fn spec_bytes_written(&self) -> u64 {
        self.bytes_written
    }

    /// At least one segment, the active one exactly encoded, and the
    /// byte counter still under the rotation cap.
    pub open spec fn wf(&self) -> bool {
        &&& self.spec_segments().len() >= 1
        &&& wal_seg_exact(self.spec_segments().last())
        &&& self.spec_bytes_written() < WAL_CAP_LIMIT
    }

    /// Number of segments.
    pub fn segment_count(&self) -> (r: usize)
        ensures
            r == self.spec_segments().len(),
    {
        self.segments.len()
    }

    /// Borrows the bytes of segment `i`.
    pub fn segment(&self, i: usize) -> (r: &Vec<u8>)
        requires
            i < self.spec_segments().len(),
        ensures
            r@ == self.spec_segments()[i as int],
    {
        &self.segments[i]
    }

    /// Gives up the segment images, oldest first.
    pub fn into_segments(self) -> (r: Vec<Vec<u8>>)
        ensures
            seg_views(r@) == self.spec_segments(),
    {
        self.segments
    }

    /// Opens the journal over the existing segment images: replays them
    /// against `next_seqno`, then starts a fresh active segment after
    /// them.  Returns the journal, the replayed table, and the next
    /// sequence number after replay.
    pub fn open(wal_files: Vec<Vec<u8>>, next_seqno: u64) -> (r: KeplerResult<
        (Journal, MemTable, u64),
    >)
        ensures
            match r {
                Ok((j, mem, next)) => {
                    &&& j.wf()
                    &&& j.records() == wal_records_of(seg_views(wal_files@))
                    &&& j.spec_id() == wal_files@.len() + 1
                    &&& mem.wf()
                    &&& mem@ == replay_map(wal_records_of(seg_views(wal_files@)), next_seqno)
                    &&& next == vstd::wrapping::u64_specs::wrapping_add(
                        replay_max(wal_records_of(seg_views(wal_files@)), next_seqno),
                        1,
                    )
                },
                Err(_) => false,
            },
    {
        let (mem, replayed_next, _latest) = recovery_wal(&wal_files, next_seqno)?;
        let mut segments = wal_files;
        let ghost old_views = seg_views(segments@);
        segments.push(Vec::new());
        proof {
            assert(seg_views(segments@).drop_last() =~= old_views);
            assert(seg_views(segments@).last() =~= Seq::<u8>::empty());
            assert(parse_wal(Seq::<u8>::empty()) =~= Seq::<LogRecord>::empty());
            assert(wal_enc(Seq::<LogRecord>::empty()) =~= Seq::<u8>::empty());
            assert(wal_records_of(seg_views(segments@)) =~= wal_records_of(old_views));
        }
        let journal = Journal { segments, bytes_written: 0 };
        Ok((journal, mem, replayed_next))
    }

    /// Appends one record to the active segment, rotating to a fresh
    /// segment once the active one has reached its cap.
    pub fn insert(&mut self, seqno: u64, key: &[u8], val: Option<&[u8]>) -> (r: KeplerResult<()>)
        requires
            old(self).wf(),
            key@.len() <= u32::MAX,
            opt_len(val) <= u32::MAX,
        ensures
            r == Ok::<(), KeplerErr>(()),
            final(self).wf(),
            final(self).records() == old(self).records().push(
                LogRecord { seqno, key: key@, value: opt_bytes(val) },
            ),
            final(self).spec_segments().len() >= old(self).spec_segments().len(),
            ({
                // the active segment grows by exactly one encoded record,
                // and the journal rotates once the cap is reached
                let rec = LogRecord { seqno, key: key@, value: opt_bytes(val) };
                let grown = old(self).spec_segments().drop_last().push(
                    old(self).spec_segments().last() + wal_record_bytes(rec),
                );
                let w = 17 + key@.len() + opt_len(val);
                if old(self).spec_bytes_written() + w >= WAL_CAP_LIMIT {
                    final(self).spec_segments() == grown.push(Seq::<u8>::empty()) && final(self).spec_bytes_written() == 0
                } else {
                    final(self).spec_segments() == grown && final(self).spec_bytes_written()
                        == old(self).spec_bytes_written() + w
                }
            }),
    {
        let ghost rec = LogRecord { seqno, key: key@, value: opt_bytes(val) };
        let key_len: u32 = key.len() as u32;
        let (val_len, t): (u32, u8) = match val {
            None => (0, 1),
            Some(v) => (v.len() as u32, 0),
        };
        let mut seg = self.segments.pop().unwrap();
        let ghost seg0 = seg@;
        let ghost prefix = self.segments@;
        push_u64_le(&mut seg, seqno);
        seg.push(t);
        push_u32_le(&mut seg, key_len);
        push_u32_le(&mut seg, val_len);
        push_bytes(&mut seg, key);
        if let Some(v) = val {
            push_bytes(&mut seg, v);
        }
        proof {
            lemma_auto_spec_u64_to_from_le_bytes();
            lemma_auto_spec_u32_to_from_le_bytes();
            assert(seg@ =~= seg0 + wal_record_bytes(rec));
            lemma_wal_append(seg0, rec);
        }
        self.segments.push(seg);
        proof {
            assert(seg_views(self.segments@).drop_last() =~= seg_views(prefix));
            assert(seg_views(self.segments@).last() == seg@);
            assert(self.records() =~= wal_records_of(seg_views(prefix)) + parse_wal(seg@));
            assert(seg_views(old(self).segments@).drop_last() =~= seg_views(prefix));
            assert(seg_views(old(self).segments@).last() == seg0);
            assert(old(self).records() =~= wal_records_of(seg_views(prefix)) + parse_wal(seg0));
            assert(wal_records_of(seg_views(prefix)) + parse_wal(seg0).push(rec) =~= (
            wal_records_of(seg_views(prefix)) + parse_wal(seg0)).push(rec));
        }
        proof {
            assert(seg_views(self.segments@) =~= seg_views(prefix).push(seg@));
            assert(seg_views(old(self).segments@).drop_last().push(seg0 + wal_record_bytes(rec))
                =~= seg_views(prefix).push(seg@));
        }
        let written: u64 = (WAL_HEADER_SIZE as u64) + (key_len as u64) + (val_len as u64);
        let new_bytes = self.bytes_written + written;
        if new_bytes >= WAL_CAP_LIMIT {
            self.rotate();
        } else {
            self.bytes_written = new_bytes;
        }
        Ok(())
    }

    /// Starts a fresh active segment under the next identifier.
    fn rotate(&mut self)
        requires
            old(self).spec_segments().len() >= 1,
        ensures
            final(self).wf(),
            final(self).records() == old(self).records(),
            final(self).spec_segments() == old(self).spec_segments().push(Seq::<u8>::empty()),
            final(self).spec_segments().len() == old(self).spec_segments().len() + 1,
            final(self).spec_bytes_written() == 0,
    {
        let ghost old_views = seg_views(self.segments@);
        self.segments.push(Vec::new());
        proof {
            assert(seg_views(self.segments@).drop_last() =~= old_views);
            assert(seg_views(self.segments@).last() =~= Seq::<u8>::empty());
            assert(parse_wal(Seq::<u8>::empty()) =~= Seq::<LogRecord>::empty());
            assert(wal_enc(Seq::<LogRecord>::empty()) =~= Seq::<u8>::empty());
            assert(wal_records_of(seg_views(self.segments@)) =~= wal_records_of(old_views));
        }
        self.bytes_written = 0;
    }
}

/// Replays the journal segments, oldest first: every record at or past
/// `next_wal_seqno` is written into a fresh table, later records
/// shadowing earlier ones; a truncated tail record ends a segment
/// benignly.  Returns the table, one past the greatest sequence number
/// replayed (or past the boundary, when nothing was), and the identifier
/// of the newest segment.
pub fn recovery_wal(wal_files: &Vec<Vec<u8>>, next_wal_seqno: u64) -> (r: KeplerResult<
    (MemTable, u64, FileId),
>)
    ensures
        match r {
            Ok((mem, next, latest)) => {
                &&& mem.wf()
                &&& mem@ == replay_map(wal_records_of(seg_views(wal_files@)), next_wal_seqno)
                &&& next == vstd::wrapping::u64_specs::wrapping_add(
                    replay_max(wal_records_of(seg_views(wal_files@)), next_wal_seqno),
                    1,
                )
                &&& latest.0 == wal_files@.len()
            },
            Err(_) => false,
        },
{
    let mut mem = MemTable::new();
    let mut max_seqno: u64 = next_wal_seqno;
    let mut f: usize = 0;
    let n_files = wal_files.len();
    proof {
        assert(seg_views(wal_files@).take(0) =~= Seq::<Seq<u8>>::empty());
    }
    while f < n_files
        invariant
            f <= n_files,
            n_files == wal_files@.len(),
            mem.wf(),
            mem@ == replay_map(
                wal_records_of(seg_views(wal_files@).take(f as int)),
                next_wal_seqno,
            ),
            max_seqno == replay_max(
                wal_records_of(seg_views(wal_files@).take(f as int)),
                next_wal_seqno,
            ),
        decreases n_files - f,
    {
        let data = &wal_files[f];
        let data_len = data.len();
        let ghost base = wal_records_of(seg_views(wal_files@).take(f as int));
        let ghost mut done: Seq<LogRecord> = Seq::empty();
        let mut idx: usize = 0;
        proof {
            assert(data@.skip(0) =~= data@);
            assert(base + Seq::<LogRecord>::empty() =~= base);
        }
        loop
            invariant_except_break
                idx <= data_len,
                data_len == data@.len(),
                mem.wf(),
                parse_wal(data@) == done + parse_wal(data@.skip(idx as int)),
                mem@ == replay_map(base + done, next_wal_seqno),
                max_seqno == replay_max(base + done, next_wal_seqno),
            ensures
                mem.wf(),
                mem@ == replay_map(base + parse_wal(data@), next_wal_seqno),
                max_seqno == replay_max(base + parse_wal(data@), next_wal_seqno),
            decreases data_len - idx,
        {
            if data_len - idx < WAL_HEADER_SIZE {
                proof {
                    assert(parse_wal(data@.skip(idx as int)) =~= Seq::<LogRecord>::empty());
                    assert(base + done =~= base + parse_wal(data@));
                }
                break ;
            }
            let seqno = read_u64_at(data, idx);
            let t = data[idx + 8];
            let key_len = read_u32_at(data, idx + 9) as usize;
            let val_len = read_u32_at(data, idx + 13) as usize;
            let ghost tail = data@.skip(idx as int);
            proof {
                assert(tail.subrange(0, 8) =~= data@.subrange(idx as int, idx + 8));
                assert(tail[8] == data@[idx + 8]);
                assert(tail.subrange(9, 13) =~= data@.subrange(idx + 9, idx + 13));
                assert(tail.subrange(13, 17) =~= data@.subrange(idx + 13, idx + 17));
            }
            if !(t == 0 || t == 1) || (t == 1 && val_len != 0) {
                proof {
                    assert(parse_wal(tail) =~= Seq::<LogRecord>::empty());
                    assert(base + done =~= base + parse_wal(data@));
                }
                break ;
            }
            if data_len - idx - WAL_HEADER_SIZE < key_len || data_len - idx - WAL_HEADER_SIZE
                - key_len < val_len {
                proof {
                    assert(17 + key_len + val_len > tail.len());
                    assert(parse_wal(tail) =~= Seq::<LogRecord>::empty());
                    assert(base + done =~= base + parse_wal(data@));
                }
                break ;
            }
            let total = WAL_HEADER_SIZE + key_len + val_len;
            let key = vstd::slice::slice_subrange(
                data.as_slice(),
                idx + WAL_HEADER_SIZE,
                idx + WAL_HEADER_SIZE + key_len,
            );
            let ghost rec = LogRecord {
                seqno,
                key: tail.subrange(17, 17 + key_len as int),
                value: if t == 0 {
                    Some(tail.subrange(17 + key_len as int, 17 + key_len + val_len))
                } else {
                    None
                },
            };
            proof {
                assert(parse_wal(tail) == seq![rec] + parse_wal(tail.skip(total as int)));
                assert(key@ =~= rec.key);
            }
            if next_wal_seqno <= seqno {
                if t == 0 {
                    let val = vstd::slice::slice_subrange(
                        data.as_slice(),
                        idx + WAL_HEADER_SIZE + key_len,
                        idx + total,
                    );
                    proof {
                        assert(val@ =~= record_val_bytes(rec));
                        assert(rec.value == Some(val@));
                    }
                    mem.put(seqno, key, Some(val))?;
                } else {
                    proof {
                        assert(rec.value is None);
                    }
                    mem.put(seqno, key, None)?;
                }
                if seqno > max_seqno {
                    max_seqno = seqno;
                }
            }
            proof {
                let done2 = done.push(rec);
                assert((base + done).push(rec) =~= base + done2);
                assert((base + done2).drop_last() =~= base + done);
                assert((base + done2).last() == rec);
                assert(tail.skip(total as int) =~= data@.skip(idx + total));
                assert(parse_wal(data@) =~= done2 + parse_wal(data@.skip(idx + total)));
                done = done2;
            }
            idx = idx + total;
        }
        proof {
            assert(seg_views(wal_files@).take(f + 1).drop_last() =~= seg_views(wal_files@).take(
                f as int,
            ));
            assert(seg_views(wal_files@).take(f + 1).last() == data@);
            assert(wal_records_of(seg_views(wal_files@).take(f + 1)) =~= base + parse_wal(data@));
        }
        f = f + 1;
    }
    proof {
        assert(seg_views(wal_files@).take(n_files as int) =~= seg_views(wal_files@));
    }
    Ok((mem, max_seqno.wrapping_add(1), FileId(n_files as u64)))
}

} // verus!
