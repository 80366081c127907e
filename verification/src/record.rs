use vstd::prelude::*;
use crate::set::OrderedSet;

verus! {

/// A set of features under the identifier that answers echo.
#[derive(Debug, Clone)]
pub struct Record<T> {
    pub id: u32,
    pub set: OrderedSet<T>,
}

/// Every record holds a well-formed set of features below `universe`.
pub open spec fn records_within(records: Seq<Record<u32>>, universe: nat) -> bool {
    forall|r: int|
        0 <= r < records.len() ==> (#[trigger] records[r]).set.wf() && set_within(
            records[r].set@,
            universe,
        )
}

/// Every element of the sequence lies below `universe`.
pub open spec fn set_within(set: Seq<u32>, universe: nat) -> bool {
    forall|k: int| 0 <= k < set.len() ==> (#[trigger] set[k]) < universe
}

} // verus!
