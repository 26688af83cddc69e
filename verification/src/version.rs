use vstd::prelude::*;

verus! {

/// Identity of one live on-disk table.
#[derive(Debug, Clone, Copy, PartialEq, Eq, Structural)]
pub struct SSTInfo {
    pub id: u64,
}

impl SSTInfo {
    pub fn new(id: u64) -> (r: Self)
        ensures
            r.id == id,
    {
        Self { id }
    }
}

/// The set of table identifiers a list of infos holds.
pub open spec fn ids_set(s: Seq<SSTInfo>) -> Set<u64> {
    Set::new(|id: u64| exists|i: int| 0 <= i < s.len() && (#[trigger] s[i]).id == id)
}

/// Identifiers strictly increasing: sorted and free of duplicates.
pub open spec fn ids_sorted(s: Seq<SSTInfo>) -> bool {
    forall|i: int, j: int| 0 <= i < j < s.len() ==> (#[trigger] s[i]).id < (#[trigger] s[j]).id
}

/// What manifest recovery reconstructs: the live tables and the next
/// sequence and table numbers to hand out.
pub struct Version {
    pub sst_list: Vec<SSTInfo>,
    pub next_seqno: u64,
    pub next_sstno: u64,
}

impl Version {
    /// Live table identifiers in ascending order.
    pub open spec fn spec_ids(&self) -> Seq<SSTInfo> {
        self.sst_list@
    }

    pub open spec fn wf(&self) -> bool {
        ids_sorted(self.spec_ids())
    }

    pub fn new(sst_list: Vec<SSTInfo>, next_seqno: u64, next_sstno: u64) -> (r: Self)
        ensures
            r.sst_list@ == sst_list@,
            r.next_seqno == next_seqno,
            r.next_sstno == next_sstno,
    {
        Self { sst_list, next_seqno, next_sstno }
    }
}

} // verus!
