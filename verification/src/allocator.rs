//! The allocation decision: an existing id for a known name, or the
//! smallest unused id at or above the start offset.

use crate::registry::{id_in_use, Registry};
use vstd::prelude::*;

verus! {

/// The outcome of one allocation.
#[derive(Clone, Copy, PartialEq, Eq, Structural, Debug)]
pub enum IdOutcome {
    /// The name already held this id; nothing is to be written.
    Existing { id: u64 },
    /// The name was absent and got this id; the record must still be
    /// appended to the registry file, under the same lock.
    Fresh { id: u64 },
}

impl IdOutcome {
    /// The id carried, fresh or not.
    pub open spec fn spec_id(self) -> u64 {
        match self {
            IdOutcome::Existing { id } => id,
            IdOutcome::Fresh { id } => id,
        }
    }

    /// The id carried, fresh or not.
    pub fn id(self) -> (r: u64)
        ensures
            r == self.spec_id(),
    {
        match self {
            IdOutcome::Existing { id } => id,
            IdOutcome::Fresh { id } => id,
        }
    }
}

/// `id` is the smallest id at or above `start` that no name holds.
pub open spec fn is_first_free(m: Map<Seq<char>, u64>, start: u64, id: u64) -> bool {
    &&& start <= id
    &&& !id_in_use(m, id)
    &&& forall|j: u64| start <= j < id ==> #[trigger] id_in_use(m, j)
}

/// A mapping of `n` names uses at most `n` ids, so some id within `n` of
/// `start` is unused.
pub proof fn lemma_unused_id_in_range(m: Map<Seq<char>, u64>, start: u64)
    requires
        m.dom().finite(),
        start + m.dom().len() <= u64::MAX,
    ensures
        exists|id: u64|
            #![trigger id_in_use(m, id)]
            start <= id <= start + m.dom().len() && !id_in_use(m, id),
    decreases m.dom().len(),
{
    if !id_in_use(m, start) {
        assert(start <= start <= start + m.dom().len() && !id_in_use(m, start));
    } else {
        let k = choose|k: Seq<char>| #[trigger] m.contains_key(k) && m[k] == start;
        assert(m.dom().len() >= 1) by {
            assert(m.dom().remove(k).insert(k) =~= m.dom());
            vstd::set::axiom_set_insert_len(m.dom().remove(k), k);
        }
        let m2 = m.remove(k);
        assert(m2.dom() =~= m.dom().remove(k));
        vstd::set::axiom_set_remove_len(m.dom(), k);
        lemma_unused_id_in_range(m2, (start + 1) as u64);
        let id = choose|id: u64|
            #![trigger id_in_use(m2, id)]
            start + 1 <= id <= start + 1 + m2.dom().len() && !id_in_use(m2, id);
        assert(!id_in_use(m, id)) by {
            if id_in_use(m, id) {
                let k2 = choose|k2: Seq<char>| #[trigger] m.contains_key(k2) && m[k2] == id;
                assert(k2 != k);
                assert(m2.contains_key(k2) && m2[k2] == id);
            }
        }
        assert(start <= id <= start + m.dom().len());
    }
}

/// What the allocation contract allows as the outcome for a mapping, a
/// name and a start offset: the stored id for a present name, the first
/// free id for an absent one.
pub open spec fn allocation_obeys(
    m: Map<Seq<char>, u64>,
    record: Seq<char>,
    start: u64,
    out: IdOutcome,
) -> bool {
    &&& m.contains_key(record) ==> out == (IdOutcome::Existing { id: m[record] })
    &&& !m.contains_key(record) ==> (out matches IdOutcome::Fresh { id }
        && is_first_free(m, start, id))
}

/// Idempotence: for a name the registry already holds, every outcome the
/// allocation contract allows is `Existing` with the stored id — repeated
/// calls return the same id, and nothing is to be written.
pub proof fn lemma_idempotent_lookup(
    m: Map<Seq<char>, u64>,
    record: Seq<char>,
    start: u64,
    out1: IdOutcome,
    out2: IdOutcome,
)
    requires
        m.contains_key(record),
        allocation_obeys(m, record, start, out1),
        allocation_obeys(m, record, start, out2),
    ensures
        out1 == (IdOutcome::Existing { id: m[record] }),
        out1 == out2,
{
}

/// The allocation decision is determined: only one id can be the first
/// free one for a given mapping and start, so equal registry states always
/// decide the same id, whatever any other registry holds.
pub proof fn lemma_first_free_unique(m: Map<Seq<char>, u64>, start: u64, id1: u64, id2: u64)
    requires
        is_first_free(m, start, id1),
        is_first_free(m, start, id2),
    ensures
        id1 == id2,
{
    if id1 < id2 {
        assert(id_in_use(m, id1));
    } else if id2 < id1 {
        assert(id_in_use(m, id2));
    }
}

/// Cross-registry independence: the outcome for a registry is fixed by
/// that registry's own mapping, the name and the start alone, so two
/// registries in the same state decide alike, whatever any other registry
/// holds or was asked.
pub proof fn lemma_cross_registry_independence(
    ma: Map<Seq<char>, u64>,
    mb: Map<Seq<char>, u64>,
    record: Seq<char>,
    start: u64,
    outa: IdOutcome,
    outb: IdOutcome,
)
    requires
        ma == mb,
        allocation_obeys(ma, record, start, outa),
        allocation_obeys(mb, record, start, outb),
    ensures
        outa == outb,
{
    if !ma.contains_key(record) {
        lemma_first_free_unique(ma, start, outa.spec_id(), outb.spec_id());
    }
}

/// Serialized fresh allocations for two distinct absent names never hand
/// out the same id: the second decision sees the first record already in
/// the mapping, so its scan cannot stop on the first id.
pub proof fn lemma_serialized_fresh_ids_distinct(
    m: Map<Seq<char>, u64>,
    name1: Seq<char>,
    name2: Seq<char>,
    start: u64,
    id1: u64,
    id2: u64,
)
    requires
        !m.contains_key(name1),
        !m.contains_key(name2),
        name1 != name2,
        is_first_free(m, start, id1),
        is_first_free(m.insert(name1, id1), start, id2),
    ensures
        id1 != id2,
{
    let m1 = m.insert(name1, id1);
    assert(m1.contains_key(name1) && m1[name1] == id1);
    assert(id_in_use(m1, id1));
}

/// No two names hold the same id.
pub open spec fn ids_distinct(m: Map<Seq<char>, u64>) -> bool {
    forall|k1: Seq<char>, k2: Seq<char>|
        #[trigger] m.contains_key(k1) && #[trigger] m.contains_key(k2) && k1 != k2 ==> m[k1]
            != m[k2]
}

/// Appending a freshly allocated record keeps every name's id its own:
/// the new id was unused, so no stable entry collides with it, and the
/// registry grows by exactly the one record.
pub proof fn lemma_fresh_append_keeps_ids_distinct(
    m: Map<Seq<char>, u64>,
    record: Seq<char>,
    start: u64,
    id: u64,
)
    requires
        ids_distinct(m),
        !m.contains_key(record),
        is_first_free(m, start, id),
    ensures
        ids_distinct(m.insert(record, id)),
        m.dom().finite() ==> m.insert(record, id).dom().len() == m.dom().len() + 1,
{
    let m1 = m.insert(record, id);
    assert forall|k1: Seq<char>, k2: Seq<char>|
        #[trigger] m1.contains_key(k1) && #[trigger] m1.contains_key(k2) && k1
            != k2 implies m1[k1] != m1[k2] by {
        if k1 == record {
            assert(m.contains_key(k2));
            if m[k2] == id {
                assert(id_in_use(m, id));
            }
        } else if k2 == record {
            assert(m.contains_key(k1));
            if m[k1] == id {
                assert(id_in_use(m, id));
            }
        }
    }
    if m.dom().finite() {
        assert(m1.dom() =~= m.dom().insert(record));
        vstd::set::axiom_set_insert_len(m.dom(), record);
    }
}

/// Decides the id for `record` against the loaded mapping: the stored id
/// if the name is present, with nothing to write; otherwise the smallest
/// unused id at or above `start`, as a fresh record. The start offset and
/// the mapping must leave room below `u64::MAX` for the scan.
pub fn gen_id(pairs_map: &Registry, record: &str, start: u64) -> (out: IdOutcome)
    requires
        start + pairs_map@.dom().len() <= u64::MAX,
    ensures
        pairs_map@.contains_key(record@) ==> out == (IdOutcome::Existing {
            id: pairs_map@[record@],
        }),
        !pairs_map@.contains_key(record@) ==> (out matches IdOutcome::Fresh { id }
            && is_first_free(pairs_map@, start, id)),
        allocation_obeys(pairs_map@, record@, start, out),
{
    let ghost m = pairs_map@;
    match pairs_map.get(record) {
        Some(record_id) => IdOutcome::Existing { id: record_id },
        None => {
            let _ = pairs_map.len();
            proof {
                lemma_unused_id_in_range(m, start);
            }
            let ghost bound = choose|id: u64|
                #![trigger id_in_use(m, id)]
                start <= id <= start + m.dom().len() && !id_in_use(m, id);
            let mut new_id: u64 = start;
            loop
                invariant_except_break
                    start <= new_id <= bound,
                    bound <= start + m.dom().len(),
                    !id_in_use(m, bound),
                    m == pairs_map@,
                    forall|j: u64| start <= j < new_id ==> #[trigger] id_in_use(m, j),
                ensures
                    is_first_free(m, start, new_id),
                    m == pairs_map@,
                decreases bound - new_id,
            {
                if !pairs_map.contains_id(new_id) {
                    break;
                }
                new_id = new_id + 1;
            }
            IdOutcome::Fresh { id: new_id }
        },
    }
}

} // verus!
