use vstd::prelude::*;

use crate::error::{KeplerErr, KeplerResult};
use crate::mem_table::{drop_seqnos, TableMap};
use crate::types::Value;

verus! {

/// The reader-facing mapping of one frozen table.
pub open spec fn table_proj(t: TableMap) -> Map<Seq<u8>, Option<Seq<u8>>> {
    drop_seqnos(t@)
}

/// The mapping the frozen tables serve together, oldest first: newer
/// tables shadow older ones.
pub open spec fn imm_merged(ts: Seq<TableMap>) -> Map<Seq<u8>, Option<Seq<u8>>>
    decreases ts.len(),
{
    if ts.len() == 0 {
        Map::empty()
    } else {
        imm_merged(ts.drop_last()).union_prefer_right(table_proj(ts.last()))
    }
}

/// A key no frozen table holds is absent from the merged mapping.
pub proof fn lemma_imm_absent(ts: Seq<TableMap>, key: Seq<u8>)
    requires
        forall|i: int| 0 <= i < ts.len() ==> !table_proj(#[trigger] ts[i]).contains_key(key),
    ensures
        !imm_merged(ts).contains_key(key),
    decreases ts.len(),
{
    if ts.len() > 0 {
        lemma_imm_absent(ts.drop_last(), key);
        assert(ts[ts.len() - 1] == ts.last());
    }
}

/// The newest frozen table holding a key decides its merged value.
pub proof fn lemma_imm_found(ts: Seq<TableMap>, i: int, key: Seq<u8>)
    requires
        0 <= i < ts.len(),
        table_proj(ts[i]).contains_key(key),
        forall|j: int| i < j < ts.len() ==> !table_proj(#[trigger] ts[j]).contains_key(key),
    ensures
        imm_merged(ts).contains_key(key),
        imm_merged(ts)[key] == table_proj(ts[i])[key],
    decreases ts.len(),
{
    if i == ts.len() - 1 {
        assert(ts.last() == ts[i]);
    } else {
        assert(ts[ts.len() - 1] == ts.last());
        assert(ts.drop_last()[i] == ts[i]);
        assert forall|j: int| i < j < ts.drop_last().len() implies !table_proj(
            #[trigger] ts.drop_last()[j],
        ).contains_key(key) by {
            assert(ts.drop_last()[j] == ts[j]);
        }
        lemma_imm_found(ts.drop_last(), i, key);
    }
}

/// The merged mapping splits off its oldest table.
pub proof fn lemma_imm_merged_cons(ts: Seq<TableMap>)
    requires
        ts.len() > 0,
    ensures
        imm_merged(ts) == table_proj(ts[0]).union_prefer_right(imm_merged(ts.drop_first())),
    decreases ts.len(),
{
    if ts.len() == 1 {
        assert(ts.drop_last() =~= Seq::<TableMap>::empty());
        assert(ts.drop_first() =~= Seq::<TableMap>::empty());
        assert(ts.last() == ts[0]);
        assert(imm_merged(Seq::<TableMap>::empty()) == Map::<Seq<u8>, Option<Seq<u8>>>::empty());
        assert(imm_merged(ts.drop_last()) == Map::<Seq<u8>, Option<Seq<u8>>>::empty());
        assert(imm_merged(ts) == Map::<Seq<u8>, Option<Seq<u8>>>::empty().union_prefer_right(
            table_proj(ts[0]),
        ));
        assert(imm_merged(ts) =~= table_proj(ts[0]).union_prefer_right(
            Map::<Seq<u8>, Option<Seq<u8>>>::empty(),
        ));
    } else {
        let head = ts[0];
        assert(ts.drop_last()[0] == head);
        lemma_imm_merged_cons(ts.drop_last());
        assert(ts.drop_last().drop_first() =~= ts.drop_first().drop_last());
        assert(ts.drop_first().last() == ts.last());
        assert(imm_merged(ts) == table_proj(head).union_prefer_right(
            imm_merged(ts.drop_first().drop_last()),
        ).union_prefer_right(table_proj(ts.last())));
        lemma_union_assoc(
            table_proj(head),
            imm_merged(ts.drop_first().drop_last()),
            table_proj(ts.last()),
        );
    }
}

/// Overlaying mappings is associative.
pub proof fn lemma_union_assoc(
    a: Map<Seq<u8>, Option<Seq<u8>>>,
    b: Map<Seq<u8>, Option<Seq<u8>>>,
    c: Map<Seq<u8>, Option<Seq<u8>>>,
)
    ensures
        a.union_prefer_right(b).union_prefer_right(c) == a.union_prefer_right(
            b.union_prefer_right(c),
        ),
{
    assert(a.union_prefer_right(b).union_prefer_right(c) =~= a.union_prefer_right(
        b.union_prefer_right(c),
    ));
}

/// The queue of frozen tables awaiting flush, oldest first.
pub struct ImmTables {
    tables: Vec<TableMap>,
}

impl ImmTables {
    pub closed spec fn spec_tables(&self) -> Seq<TableMap> {
        self.tables@
    }

    /// The merged mapping of the whole queue.
    pub open spec fn view(&self) -> Map<Seq<u8>, Option<Seq<u8>>> {
        imm_merged(self.spec_tables())
    }

    pub open spec fn wf(&self) -> bool {
        forall|i: int| 0 <= i < self.spec_tables().len() ==> (#[trigger] self.spec_tables()[i]).wf()
    }

    pub fn new() -> (r: Self)
        ensures
            r.wf(),
            r.spec_tables() == Seq::<TableMap>::empty(),
    {
        let r = ImmTables { tables: Vec::new() };
        proof {
            assert(r.spec_tables() =~= Seq::<TableMap>::empty());
        }
        r
    }

    /// Number of queued tables.
    pub fn len(&self) -> (r: usize)
        ensures
            r == self.spec_tables().len(),
    {
        self.tables.len()
    }

    /// Borrows the oldest queued table.
    pub fn front(&self) -> (r: &TableMap)
        requires
            self.spec_tables().len() > 0,
        ensures
            *r == self.spec_tables()[0],
    {
        &self.tables[0]
    }

    /// Enqueues a freshly frozen table as the newest.
    pub fn push_back(&mut self, tree: TableMap) -> (r: KeplerResult<()>)
        requires
            old(self).wf(),
            tree.wf(),
        ensures
            r == Ok::<(), KeplerErr>(()),
            final(self).wf(),
            final(self).spec_tables() == old(self).spec_tables().push(tree),
            final(self)@ == old(self)@.union_prefer_right(table_proj(tree)),
    {
        self.tables.push(tree);
        proof {
            assert(self.spec_tables().drop_last() =~= old(self).spec_tables());
        }
        Ok(())
    }

    /// Dequeues the oldest table once its flush is recorded.
    pub fn pop_front(&mut self) -> (r: KeplerResult<Option<TableMap>>)
        requires
            old(self).wf(),
        ensures
            final(self).wf(),
            match r {
                Ok(Some(t)) => {
                    &&& old(self).spec_tables().len() > 0
                    &&& t == old(self).spec_tables()[0]
                    &&& final(self).spec_tables() == old(self).spec_tables().drop_first()
                },
                Ok(None) => {
                    &&& old(self).spec_tables().len() == 0
                    &&& final(self).spec_tables() == old(self).spec_tables()
                },
                Err(_) => false,
            },
    {
        if self.tables.len() == 0 {
            return Ok(None);
        }
        let t = self.tables.remove(0);
        proof {
            assert(self.spec_tables() =~= old(self).spec_tables().drop_first());
        }
        Ok(Some(t))
    }

    /// Looks up `key`, newest table first, answering the first entry
    /// found.
    pub fn lookup_latest(&self, key: &[u8]) -> (r: KeplerResult<Option<Value>>)
        requires
            self.wf(),
        ensures
            match r {
                Ok(Some(v)) => self@.contains_key(key@) && v.model() == self@[key@],
                Ok(None) => !self@.contains_key(key@),
                Err(_) => false,
            },
    {
        let ghost ts = self.spec_tables();
        let mut idx = self.tables.len();
        while idx > 0
            invariant
                idx <= ts.len(),
                ts == self.spec_tables(),
                self.wf(),
                forall|j: int| idx <= j < ts.len() ==> !table_proj(#[trigger] ts[j]).contains_key(
                    key@,
                ),
            decreases idx,
        {
            idx = idx - 1;
            let table = &self.tables[idx];
            match table.get_entry(key) {
                Some((_seqno, v)) => {
                    proof {
                        assert(table_proj(ts[idx as int]).contains_key(key@));
                        assert(table_proj(ts[idx as int])[key@] == ts[idx as int]@[key@].1);
                        lemma_imm_found(ts, idx as int, key@);
                    }
                    return Ok(Some(v));
                },
                None => {
                    proof {
                        assert(!table_proj(ts[idx as int]).contains_key(key@));
                    }
                },
            }
        }
        proof {
            lemma_imm_absent(ts, key@);
        }
        Ok(None)
    }
}

} // verus!
