use vstd::prelude::*;

use crate::error::{KeplerErr, KeplerResult};
use crate::keys::{
    key_compare, key_eq, key_lt, lemma_key_lt_asymmetric, lemma_key_lt_irreflexive,
    lemma_key_lt_transitive, lemma_key_lt_trichotomy, KeyOrder,
};
use crate::types::{clone_bytes, slice_to_vec, TableEntry, Value};

verus! {

/// The entries of a sorted table, in strictly increasing key order.
pub open spec fn entries_sorted(s: Seq<TableEntry>) -> bool {
    forall|i: int, j: int|
        0 <= i < j < s.len() ==> key_lt(#[trigger] s[i].key@, #[trigger] s[j].key@)
}

/// The mapping a sorted table denotes: each key to the sequence number and
/// logical value of its entry.
pub open spec fn as_map(s: Seq<TableEntry>) -> Map<Seq<u8>, (u64, Option<Seq<u8>>)>
    decreases s.len(),
{
    if s.len() == 0 {
        Map::empty()
    } else {
        as_map(s.drop_last()).insert(
            s.last().key@,
            (s.last().seqno, s.last().value.model()),
        )
    }
}

/// Every entry of a table is present in its mapping.
pub proof fn lemma_as_map_index(s: Seq<TableEntry>, i: int)
    requires
        entries_sorted(s),
        0 <= i < s.len(),
    ensures
        as_map(s).contains_key(s[i].key@),
        as_map(s)[s[i].key@] == (s[i].seqno, s[i].value.model()),
    decreases s.len(),
{
    if i < s.len() - 1 {
        lemma_as_map_index(s.drop_last(), i);
        assert(key_lt(s[i].key@, s.last().key@));
        lemma_key_lt_irreflexive(s[i].key@);
    }
}

/// A key under no entry is absent from the mapping.
pub proof fn lemma_as_map_absent(s: Seq<TableEntry>, key: Seq<u8>)
    requires
        forall|i: int| 0 <= i < s.len() ==> (#[trigger] s[i].key@) != key,
    ensures
        !as_map(s).contains_key(key),
    decreases s.len(),
{
    if s.len() > 0 {
        lemma_as_map_absent(s.drop_last(), key);
    }
}

/// The domain of the mapping is exactly the set of entry keys.
pub proof fn lemma_as_map_dom(s: Seq<TableEntry>, key: Seq<u8>)
    requires
        as_map(s).contains_key(key),
    ensures
        exists|i: int| 0 <= i < s.len() && (#[trigger] s[i].key@) == key,
    decreases s.len(),
{
    if s.len() > 0 {
        if s.last().key@ == key {
            assert(s[s.len() - 1].key@ == key);
        } else {
            lemma_as_map_dom(s.drop_last(), key);
            let i = choose|i: int| 0 <= i < s.drop_last().len() && (#[trigger] s.drop_last()[i].key@) == key;
            assert(s[i].key@ == key);
        }
    }
}

/// Inserting an entry at its sorted position updates the mapping by one
/// binding and keeps the table sorted.
pub proof fn lemma_as_map_insert_at(s: Seq<TableEntry>, i: int, e: TableEntry)
    requires
        entries_sorted(s),
        0 <= i <= s.len(),
        forall|j: int| 0 <= j < i ==> key_lt(#[trigger] s[j].key@, e.key@),
        forall|j: int| i <= j < s.len() ==> key_lt(e.key@, #[trigger] s[j].key@),
    ensures
        entries_sorted(s.insert(i, e)),
        as_map(s.insert(i, e)) == as_map(s).insert(e.key@, (e.seqno, e.value.model())),
    decreases s.len(),
{
    let t = s.insert(i, e);
    assert forall|p: int, q: int| 0 <= p < q < t.len() implies key_lt(
        #[trigger] t[p].key@,
        #[trigger] t[q].key@,
    ) by {
        if p == i {
            assert(t[p] == e);
            assert(t[q] == s[q - 1]);
        } else if q == i {
            assert(t[q] == e);
            assert(t[p] == s[p]);
        } else {
            let p0: int = if p < i {
                p
            } else {
                p - 1
            };
            let q0: int = if q < i {
                q
            } else {
                q - 1
            };
            assert(t[p] == s[p0]);
            assert(t[q] == s[q0]);
        }
    }
    if i == s.len() {
        assert(t.drop_last() =~= s);
        assert(t.last() == e);
    } else {
        assert(t.drop_last() =~= s.drop_last().insert(i, e));
        assert(t.last() == s.last());
        lemma_as_map_insert_at(s.drop_last(), i, e);
        assert(key_lt(e.key@, s.last().key@));
        lemma_key_lt_irreflexive(e.key@);
        assert(e.key@ != s.last().key@);
        assert(as_map(t) == as_map(s.drop_last()).insert(
            e.key@,
            (e.seqno, e.value.model()),
        ).insert(s.last().key@, (s.last().seqno, s.last().value.model())));
        assert(as_map(s.drop_last()).insert(e.key@, (e.seqno, e.value.model())).insert(
            s.last().key@,
            (s.last().seqno, s.last().value.model()),
        ) =~= as_map(s.drop_last()).insert(
            s.last().key@,
            (s.last().seqno, s.last().value.model()),
        ).insert(e.key@, (e.seqno, e.value.model())));
    }
}

/// Overwriting the entry of an existing key updates the mapping by one
/// binding and keeps the table sorted.
pub proof fn lemma_as_map_update_at(s: Seq<TableEntry>, i: int, e: TableEntry)
    requires
        entries_sorted(s),
        0 <= i < s.len(),
        e.key@ == s[i].key@,
    ensures
        entries_sorted(s.update(i, e)),
        as_map(s.update(i, e)) == as_map(s).insert(e.key@, (e.seqno, e.value.model())),
    decreases s.len(),
{
    let t = s.update(i, e);
    assert forall|p: int, q: int| 0 <= p < q < t.len() implies key_lt(
        #[trigger] t[p].key@,
        #[trigger] t[q].key@,
    ) by {
        assert(t[p].key@ == s[p].key@);
        assert(t[q].key@ == s[q].key@);
    }
    if i == s.len() - 1 {
        assert(t.drop_last() =~= s.drop_last());
        assert(t.last() == e);
        assert(as_map(t) == as_map(s.drop_last()).insert(e.key@, (e.seqno, e.value.model())));
        assert(as_map(s.drop_last()).insert(
            s.last().key@,
            (s.last().seqno, s.last().value.model()),
        ).insert(e.key@, (e.seqno, e.value.model())) =~= as_map(s.drop_last()).insert(
            e.key@,
            (e.seqno, e.value.model()),
        ));
    } else {
        assert(t.drop_last() =~= s.drop_last().update(i, e));
        assert(t.last() == s.last());
        lemma_as_map_update_at(s.drop_last(), i, e);
        assert(key_lt(e.key@, s.last().key@));
        lemma_key_lt_irreflexive(e.key@);
        assert(as_map(s.drop_last()).insert(e.key@, (e.seqno, e.value.model())).insert(
            s.last().key@,
            (s.last().seqno, s.last().value.model()),
        ) =~= as_map(s.drop_last()).insert(
            s.last().key@,
            (s.last().seqno, s.last().value.model()),
        ).insert(e.key@, (e.seqno, e.value.model())));
    }
}

/// Approximate size of one entry: eight bytes of bookkeeping beside the
/// key and value bytes.
pub open spec fn entry_size(e: TableEntry) -> nat {
    8 + e.key@.len() + e.value.spec_len()
}

/// Sum of the entry sizes: what the freeze trigger measures.
pub open spec fn table_bytes(s: Seq<TableEntry>) -> nat
    decreases s.len(),
{
    if s.len() == 0 {
        0
    } else {
        table_bytes(s.drop_last()) + entry_size(s.last())
    }
}

/// Replacing one entry changes the size sum by the difference of the two
/// entries.
proof fn lemma_table_bytes_update(s: Seq<TableEntry>, i: int, e: TableEntry)
    requires
        0 <= i < s.len(),
    ensures
        table_bytes(s.update(i, e)) + entry_size(s[i]) == table_bytes(s) + entry_size(e),
    decreases s.len(),
{
    let t = s.update(i, e);
    if i == s.len() - 1 {
        assert(t.drop_last() =~= s.drop_last());
        assert(t.last() == e);
    } else {
        assert(t.drop_last() =~= s.drop_last().update(i, e));
        assert(t.last() == s.last());
        lemma_table_bytes_update(s.drop_last(), i, e);
    }
}

/// Inserting an entry grows the size sum by that entry's size.
proof fn lemma_table_bytes_insert(s: Seq<TableEntry>, i: int, e: TableEntry)
    requires
        0 <= i <= s.len(),
    ensures
        table_bytes(s.insert(i, e)) == table_bytes(s) + entry_size(e),
    decreases s.len(),
{
    let t = s.insert(i, e);
    if i == s.len() {
        assert(t.drop_last() =~= s);
        assert(t.last() == e);
    } else {
        assert(t.drop_last() =~= s.drop_last().insert(i, e));
        assert(t.last() == s.last());
        lemma_table_bytes_insert(s.drop_last(), i, e);
    }
}

/// An ordered table of key entries: the staging structure behind the
/// engine's in-memory tiers.
pub struct TableMap {
    entries: Vec<TableEntry>,
}

impl TableMap {
    /// The entries in key order.
    pub closed spec fn spec_entries(&self) -> Seq<TableEntry> {
        self.entries@
    }

    /// The key-to-record mapping the table denotes.
    pub open spec fn view(&self) -> Map<Seq<u8>, (u64, Option<Seq<u8>>)> {
        as_map(self.spec_entries())
    }

    /// Entries strictly sorted by key.
    pub open spec fn wf(&self) -> bool {
        entries_sorted(self.spec_entries())
    }

    pub fn new() -> (r: Self)
        ensures
            r.wf(),
            r.spec_entries() == Seq::<TableEntry>::empty(),
            r@ == Map::<Seq<u8>, (u64, Option<Seq<u8>>)>::empty(),
    {
        let r = TableMap { entries: Vec::new() };
        proof {
            assert(r.spec_entries() =~= Seq::<TableEntry>::empty());
        }
        r
    }

    /// Number of distinct keys.
    pub fn len(&self) -> (r: usize)
        ensures
            r == self.spec_entries().len(),
    {
        self.entries.len()
    }

    /// Borrows the entry at position `i`.
    pub fn entry_at(&self, i: usize) -> (r: &TableEntry)
        requires
            i < self.spec_entries().len(),
        ensures
            *r == self.spec_entries()[i as int],
    {
        &self.entries[i]
    }

    /// Position of the first entry whose key is not below `key`: entries
    /// before it are strictly smaller, entries from it on are not.
    fn lower_bound(&self, key: &[u8]) -> (r: usize)
        requires
            self.wf(),
        ensures
            r <= self.spec_entries().len(),
            forall|j: int| 0 <= j < r ==> key_lt(#[trigger] self.spec_entries()[j].key@, key@),
            forall|j: int|
                r <= j < self.spec_entries().len() ==> !key_lt(
                    #[trigger] self.spec_entries()[j].key@,
                    key@,
                ),
    {
        let mut lo: usize = 0;
        let mut hi: usize = self.entries.len();
        while lo < hi
            invariant
                lo <= hi <= self.spec_entries().len(),
                self.wf(),
                forall|j: int| 0 <= j < lo ==> key_lt(#[trigger] self.spec_entries()[j].key@, key@),
                forall|j: int|
                    hi <= j < self.spec_entries().len() ==> !key_lt(
                        #[trigger] self.spec_entries()[j].key@,
                        key@,
                    ),
            decreases hi - lo,
        {
            let mid = lo + (hi - lo) / 2;
            let cmp = key_compare(self.entries[mid].key.as_slice(), key);
            match cmp {
                KeyOrder::Less => {
                    proof {
                        assert forall|j: int| 0 <= j < mid + 1 implies key_lt(
                            #[trigger] self.spec_entries()[j].key@,
                            key@,
                        ) by {
                            if j < mid {
                                assert(key_lt(
                                    self.spec_entries()[j].key@,
                                    self.spec_entries()[mid as int].key@,
                                ));
                                lemma_key_lt_transitive(
                                    self.spec_entries()[j].key@,
                                    self.spec_entries()[mid as int].key@,
                                    key@,
                                );
                            }
                        }
                    }
                    lo = mid + 1;
                },
                KeyOrder::Equal => {
                    proof {
                        lemma_key_lt_irreflexive(key@);
                        assert forall|j: int|
                            mid <= j < self.spec_entries().len() implies !key_lt(
                            #[trigger] self.spec_entries()[j].key@,
                            key@,
                        ) by {
                            if j > mid {
                                assert(key_lt(
                                    self.spec_entries()[mid as int].key@,
                                    self.spec_entries()[j].key@,
                                ));
                                if key_lt(self.spec_entries()[j].key@, key@) {
                                    lemma_key_lt_transitive(
                                        self.spec_entries()[mid as int].key@,
                                        self.spec_entries()[j].key@,
                                        key@,
                                    );
                                }
                            }
                        }
                    }
                    hi = mid;
                },
                KeyOrder::Greater => {
                    proof {
                        assert forall|j: int|
                            mid <= j < self.spec_entries().len() implies !key_lt(
                            #[trigger] self.spec_entries()[j].key@,
                            key@,
                        ) by {
                            lemma_key_lt_asymmetric(key@, self.spec_entries()[mid as int].key@);
                            if j > mid {
                                if key_lt(self.spec_entries()[j].key@, key@) {
                                    assert(key_lt(
                                        self.spec_entries()[mid as int].key@,
                                        self.spec_entries()[j].key@,
                                    ));
                                    lemma_key_lt_transitive(
                                        self.spec_entries()[mid as int].key@,
                                        self.spec_entries()[j].key@,
                                        key@,
                                    );
                                    lemma_key_lt_asymmetric(key@, self.spec_entries()[mid as int].key@);
                                }
                            }
                        }
                    }
                    hi = mid;
                },
            }
        }
        lo
    }

    /// Looks up `key`, handing back its sequence number and a copy of its
    /// value if an entry exists.
    pub fn get_entry(&self, key: &[u8]) -> (r: Option<(u64, Value)>)
        requires
            self.wf(),
        ensures
            match r {
                Some(p) => {
                    &&& self@.contains_key(key@)
                    &&& p.0 == self@[key@].0
                    &&& p.1.model() == self@[key@].1
                },
                None => !self@.contains_key(key@),
            },
    {
        let i = self.lower_bound(key);
        if i < self.entries.len() && key_eq(self.entries[i].key.as_slice(), key) {
            proof {
                lemma_as_map_index(self.spec_entries(), i as int);
            }
            let e = &self.entries[i];
            Some((e.seqno, e.value.duplicate()))
        } else {
            proof {
                assert forall|j: int|
                    0 <= j < self.spec_entries().len() implies (
                #[trigger] self.spec_entries()[j].key@) != key@ by {
                    if j < i {
                        lemma_key_lt_irreflexive(key@);
                    } else {
                        lemma_key_lt_trichotomy(self.spec_entries()[j].key@, key@);
                        if j == i {
                        } else {
                            assert(!key_lt(self.spec_entries()[j].key@, key@));
                            lemma_key_lt_irreflexive(key@);
                        }
                    }
                }
                lemma_as_map_absent(self.spec_entries(), key@);
            }
            None
        }
    }

    /// Writes `key` to carry `(seqno, value)`, overwriting any previous
    /// entry, and reports the size of the entry it replaced, if any.
    pub fn insert_entry(&mut self, seqno: u64, key: &[u8], value: Value) -> (replaced: Option<
        (u64, Value),
    >)
        requires
            old(self).wf(),
        ensures
            final(self).wf(),
            final(self)@ == old(self)@.insert(key@, (seqno, value.model())),
            match replaced {
                Some(p) => {
                    &&& old(self)@.contains_key(key@)
                    &&& p.0 == old(self)@[key@].0
                    &&& p.1.model() == old(self)@[key@].1
                    &&& table_bytes(final(self).spec_entries()) + p.1.spec_len() == table_bytes(
                        old(self).spec_entries(),
                    ) + value.spec_len()
                },
                None => {
                    &&& !old(self)@.contains_key(key@)
                    &&& table_bytes(final(self).spec_entries()) == table_bytes(
                        old(self).spec_entries(),
                    ) + 8 + key@.len() + value.spec_len()
                },
            },
    {
        let i = self.lower_bound(key);
        let ghost s = self.spec_entries();
        if i < self.entries.len() && key_eq(self.entries[i].key.as_slice(), key) {
            let old_entry = self.entries[i].duplicate();
            let e = TableEntry { key: slice_to_vec(key), seqno, value };
            proof {
                lemma_as_map_index(s, i as int);
                lemma_as_map_update_at(s, i as int, e);
                lemma_table_bytes_update(s, i as int, e);
            }
            self.entries[i] = e;
            Some((old_entry.seqno, old_entry.value))
        } else {
            let e = TableEntry { key: slice_to_vec(key), seqno, value };
            proof {
                if i < s.len() {
                    // At position i the key is neither equal (the branch test
                    // failed) nor greater, so the new key is strictly below it.
                    lemma_key_lt_trichotomy(s[i as int].key@, key@);
                    assert(key_lt(key@, s[i as int].key@));
                }
                assert forall|j: int| i <= j < s.len() implies key_lt(e.key@, #[trigger] s[j].key@) by {
                    if j > i {
                        assert(key_lt(s[i as int].key@, s[j].key@));
                        lemma_key_lt_transitive(key@, s[i as int].key@, s[j].key@);
                    }
                }
                assert forall|j: int| 0 <= j < s.len() implies (#[trigger] s[j].key@) != key@ by {
                    if j < i {
                        lemma_key_lt_irreflexive(key@);
                    } else {
                        lemma_key_lt_irreflexive(key@);
                        assert(key_lt(key@, s[j].key@));
                    }
                }
                lemma_as_map_absent(s, key@);
                lemma_as_map_insert_at(s, i as int, e);
                lemma_table_bytes_insert(s, i as int, e);
            }
            self.entries.insert(i, e);
            None
        }
    }
}

/// Every key and value in the mapping fits its four-byte length field.
pub open spec fn map_bounded(m: Map<Seq<u8>, (u64, Option<Seq<u8>>)>) -> bool {
    forall|k: Seq<u8>|
        #[trigger] m.dom().contains(k) ==> k.len() <= u32::MAX && stored_len(m[k].1) <= u32::MAX
}

/// The mapping with its sequence numbers forgotten: what a reader of the
/// store can observe.
pub open spec fn drop_seqnos(m: Map<Seq<u8>, (u64, Option<Seq<u8>>)>) -> Map<
    Seq<u8>,
    Option<Seq<u8>>,
> {
    Map::new(|k: Seq<u8>| m.dom().contains(k), |k: Seq<u8>| m[k].1)
}

/// Forgetting sequence numbers commutes with writing one binding.
pub proof fn lemma_drop_seqnos_insert(
    m: Map<Seq<u8>, (u64, Option<Seq<u8>>)>,
    k: Seq<u8>,
    s: u64,
    v: Option<Seq<u8>>,
)
    ensures
        drop_seqnos(m.insert(k, (s, v))) == drop_seqnos(m).insert(k, v),
{
    assert(drop_seqnos(m.insert(k, (s, v))) =~= drop_seqnos(m).insert(k, v));
}

/// Addition on the byte counter, stopping at the top of its range.
pub open spec fn sat_add(c: u64, d: nat) -> u64 {
    if c + d > u64::MAX {
        u64::MAX
    } else {
        (c + d) as u64
    }
}

/// Subtraction on the byte counter, stopping at zero.
pub open spec fn sat_sub(c: u64, d: nat) -> u64 {
    if c < d {
        0
    } else {
        (c - d) as u64
    }
}

/// Length of a stored logical value: zero for a tombstone.
pub open spec fn stored_len(v: Option<Seq<u8>>) -> nat {
    match v {
        Some(b) => b.len(),
        None => 0,
    }
}

/// The byte counter after writing a key: grown by the full entry size for
/// a new key, moved by the value-size delta for an overwrite.
pub open spec fn counter_after_put(
    c: u64,
    replaced_len: Option<nat>,
    key_len: nat,
    val_len: nat,
) -> u64 {
    match replaced_len {
        Some(old_len) => sat_sub(sat_add(c, val_len), old_len),
        None => sat_add(c, 8 + key_len + val_len),
    }
}

/// The logical content of an optional value argument.
pub open spec fn opt_bytes(val: Option<&[u8]>) -> Option<Seq<u8>> {
    match val {
        Some(v) => Some(v@),
        None => None,
    }
}

/// The length the optional value argument contributes to size accounting.
pub open spec fn opt_len(val: Option<&[u8]>) -> nat {
    match val {
        Some(v) => v@.len(),
        None => 0,
    }
}

impl Value {
    /// The length that the value contributes to size accounting.
    pub fn byte_len(&self) -> (r: usize)
        ensures
            r == self.spec_len(),
    {
        match self {
            Value::Tombstone => 0,
            Value::Data(b) => b.len(),
        }
    }
}

/// The active in-memory table: an ordered map from key to the sequence
/// number and value of its most recent write, beside the approximate byte
/// counter that triggers freezing.
pub struct MemTable {
    tree: TableMap,
    bytes_written: u64,
}

impl MemTable {
    /// The entries in key order.
    pub closed spec fn spec_entries(&self) -> Seq<TableEntry> {
        self.tree.spec_entries()
    }

    /// The key-to-record mapping the table denotes.
    pub open spec fn view(&self) -> Map<Seq<u8>, (u64, Option<Seq<u8>>)> {
        as_map(self.spec_entries())
    }

    /// The byte counter.
    pub closed spec fn spec_bytes_written(&self) -> nat {
        self.bytes_written as nat
    }

    /// Entries strictly sorted by key.
    pub open spec fn wf(&self) -> bool {
        entries_sorted(self.spec_entries())
    }

    pub fn new() -> (r: Self)
        ensures
            r.wf(),
            r.spec_entries() == Seq::<TableEntry>::empty(),
            r@ == Map::<Seq<u8>, (u64, Option<Seq<u8>>)>::empty(),
            r.spec_bytes_written() == 0,
    {
        MemTable { tree: TableMap::new(), bytes_written: 0 }
    }

    /// The approximate number of bytes written into this table.
    pub fn bytes_written(&self) -> (r: u64)
        ensures
            r == self.spec_bytes_written(),
    {
        self.bytes_written
    }

    /// Writes `key` to carry `(seqno, val)`, where `None` is the
    /// tombstone; any previous entry for the key is overwritten and the
    /// approximate byte counter moves by the size delta, saturating at
    /// the ends of its range.
    pub fn put(&mut self, seqno: u64, key: &[u8], val: Option<&[u8]>) -> (r: KeplerResult<()>)
        requires
            old(self).wf(),
        ensures
            r == Ok::<(), KeplerErr>(()),
            final(self).wf(),
            final(self)@ == old(self)@.insert(key@, (seqno, opt_bytes(val))),
            final(self).spec_bytes_written() == counter_after_put(
                old(self).spec_bytes_written() as u64,
                if old(self)@.contains_key(key@) {
                    Some(stored_len(old(self)@[key@].1))
                } else {
                    None
                },
                key@.len(),
                opt_len(val),
            ),
    {
        let value = match val {
            Some(v) => Value::Data(slice_to_vec(v)),
            None => Value::Tombstone,
        };
        let new_len: u64 = value.byte_len() as u64;
        let key_len: u64 = key.len() as u64;
        match self.tree.insert_entry(seqno, key, value) {
            Some(replaced) => {
                let old_len: u64 = replaced.1.byte_len() as u64;
                self.bytes_written = self.bytes_written.saturating_add(new_len).saturating_sub(
                    old_len,
                );
            },
            None => {
                self.bytes_written = self.bytes_written.saturating_add(8).saturating_add(
                    key_len,
                ).saturating_add(new_len);
            },
        }
        Ok(())
    }

    /// Looks up the stored record for `key`, cloning its value.
    pub fn tree_get(&self, key: &[u8]) -> (r: KeplerResult<Option<Value>>)
        requires
            self.wf(),
        ensures
            match r {
                Ok(Some(v)) => self@.contains_key(key@) && v.model() == self@[key@].1,
                Ok(None) => !self@.contains_key(key@),
                Err(_) => false,
            },
    {
        match self.tree.get_entry(key) {
            Some(p) => Ok(Some(p.1)),
            None => Ok(None),
        }
    }

    /// Looks up `key`, folding a tombstone into "not found".
    pub fn get(&self, key: &[u8]) -> (r: KeplerResult<Option<Vec<u8>>>)
        requires
            self.wf(),
        ensures
            match r {
                Ok(Some(v)) => self@.contains_key(key@) && self@[key@].1 == Some(v@),
                Ok(None) => !self@.contains_key(key@) || self@[key@].1 is None,
                Err(_) => false,
            },
    {
        match self.tree.get_entry(key) {
            Some((_seqno, Value::Data(b))) => Ok(Some(b)),
            Some((_seqno, Value::Tombstone)) => Ok(None),
            None => Ok(None),
        }
    }

    /// Extracts the ordered table, leaving an empty one behind.  The byte
    /// counter is deliberately left as it was: the emptied shell is only
    /// ever discarded, as the caller swaps in a fresh table beforehand.
    pub fn take_tree(&mut self) -> (r: KeplerResult<TableMap>)
        requires
            old(self).wf(),
        ensures
            match r {
                Ok(t) => {
                    &&& t.wf()
                    &&& t.spec_entries() == old(self).spec_entries()
                    &&& t@ == old(self)@
                    &&& final(self).spec_entries() == Seq::<TableEntry>::empty()
                    &&& final(self)@ == Map::<Seq<u8>, (u64, Option<Seq<u8>>)>::empty()
                },
                Err(_) => false,
            },
    {
        let mut taken = TableMap::new();
        core::mem::swap(&mut self.tree, &mut taken);
        Ok(taken)
    }
}

} // verus!
