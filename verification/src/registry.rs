//! The table that finds, for a component type, where its components are
//! stored and which groups they take part in.
//!
//! The table is an `FxHashMap`: a `HashMap` of std with the hasher of
//! `rustc_hash`. Its content is modelled by the view that vstd gives every
//! `HashMap`. The contracts that vstd states for the methods of `HashMap`
//! hold only for hashers it knows, so the four calls that the storage makes
//! go through the functions at the end of this file, whose contracts are
//! taken on trust from the documentation of `HashMap`.

use vstd::prelude::*;
use rustc_hash::FxHashMap;
use crate::group::{same_family, Group};
use crate::masks::{range16, GroupMask, StorageMask};

verus! {

/// `rustc_hash::FxBuildHasher`, the hasher builder of the table. Nothing is
/// said of it: it only occurs in the type of the table.
#[verifier::external_type_specification]
#[verifier::external_body]
pub struct ExFxBuildHasher(rustc_hash::FxBuildHasher);

/// What a component storage remembers about a component type.
#[derive(Clone, Copy, PartialEq, Eq, Structural, Debug)]
pub struct ComponentMetadata {
    /// Index of the sparse set that holds the components of the type.
    pub storage_index: usize,
    /// Groups to visit after a component of the type was inserted: the
    /// groups of the type's family.
    pub insert_mask: GroupMask,
    /// Groups to visit before a component of the type is removed: the groups
    /// that the type takes part in.
    pub delete_mask: GroupMask,
    /// First group of the type's family; 0 if the type is not grouped.
    pub group_start: usize,
    /// One past the first group that the type takes part in; 0 if the type is
    /// not grouped.
    pub group_end: usize,
    /// The bit of the type's storage within its family; empty if the type is
    /// not grouped.
    pub storage_mask: StorageMask,
}

impl ComponentMetadata {
    /// The metadata of a type that takes part in no group and whose
    /// components are stored in the sparse set `storage_index`.
    pub open spec fn ungrouped(storage_index: usize) -> ComponentMetadata {
        ComponentMetadata {
            storage_index,
            insert_mask: GroupMask(0),
            delete_mask: GroupMask(0),
            group_start: 0,
            group_end: 0,
            storage_mask: StorageMask(0),
        }
    }

    /// Whether the metadata agrees with the `groups` laid out over `count`
    /// storages.
    pub open spec fn wf(self, groups: Seq<Group>, count: nat) -> bool {
        &&& self.storage_index < count
        &&& self.group_end <= groups.len()
        &&& forall|g: nat|
            g < 32 ==> (#[trigger] self.delete_mask.has(g) <==> (g < groups.len() && groups[g as int].start()
                <= self.storage_index && self.storage_index < groups[g as int].end()))
        &&& forall|g: nat|
            g < 32 ==> (#[trigger] self.insert_mask.has(g) <==> (g < groups.len() && self.group_end
                > 0 && same_family(groups, self.group_end - 1, g as int)))
        &&& self.group_end == 0 ==> self.storage_mask.0 == 0 && self.group_start == 0
            && self.insert_mask.0 == 0 && self.delete_mask.0 == 0
        &&& self.group_end > 0 ==> {
            &&& groups[self.group_end - 1].fresh() <= self.storage_index
            &&& self.storage_index < groups[self.group_end - 1].end()
            &&& self.storage_mask.0 == range16(
                (self.storage_index - groups[self.group_end - 1].start()) as nat,
                (self.storage_index - groups[self.group_end - 1].start() + 1) as nat,
            )
            &&& self.group_start < self.group_end
            &&& same_family(groups, self.group_start as int, self.group_end - 1)
            &&& groups[self.group_start as int].fresh() == groups[self.group_start as int].start()
        }
    }
}

/// Whether metadata agrees with groups depends on the metadata of the
/// groups only, not on how many entities they have grouped.
pub proof fn lemma_metadata_frame(
    metadata: ComponentMetadata,
    before: Seq<Group>,
    after: Seq<Group>,
    count: nat,
)
    requires
        metadata.wf(before, count),
        after.len() == before.len(),
        forall|g: int| 0 <= g < before.len() ==> (#[trigger] after[g]).metadata == before[g].metadata,
    ensures
        metadata.wf(after, count),
{
    assert forall|g: nat| g < 32 implies (#[trigger] metadata.delete_mask.has(g) <==> (g
        < after.len() && after[g as int].start() <= metadata.storage_index
        && metadata.storage_index < after[g as int].end())) by {
        if g < after.len() {
            assert(after[g as int].metadata == before[g as int].metadata);
        }
    }
    assert forall|g: nat| g < 32 implies (#[trigger] metadata.insert_mask.has(g) <==> (g
        < after.len() && metadata.group_end > 0 && same_family(
        after,
        metadata.group_end - 1,
        g as int,
    ))) by {
        if g < after.len() && metadata.group_end > 0 {
            assert(after[g as int].metadata == before[g as int].metadata);
            assert(after[metadata.group_end - 1].metadata == before[metadata.group_end
                - 1].metadata);
        }
    }
    if metadata.group_end > 0 {
        assert(after[metadata.group_end - 1].metadata == before[metadata.group_end - 1].metadata);
        assert(after[metadata.group_start as int].metadata
            == before[metadata.group_start as int].metadata);
    }
}

/// The table that holds no entry.
pub open spec fn empty_table() -> Map<u64, ComponentMetadata> {
    Map::empty()
}

/// Creates an empty table.
///
/// Calls `FxHashMap::default`, that is `HashMap::default` with the hasher
/// builder of `rustc_hash`, which creates a map that holds no entry.
#[verifier::external_body]
pub(crate) fn table_new() -> (table: FxHashMap<u64, ComponentMetadata>)
    ensures
        table@ == empty_table(),
{
    FxHashMap::default()
}

/// Looks up the metadata stored under `key`.
///
/// Calls `HashMap::get`, which returns the value stored under a key that the
/// map holds and nothing for any other key; the value is copied out.
#[verifier::external_body]
pub(crate) fn table_get(table: &FxHashMap<u64, ComponentMetadata>, key: u64) -> (found: Option<
    ComponentMetadata,
>)
    ensures
        found == if table@.contains_key(key) {
            Some(table@[key])
        } else {
            None::<ComponentMetadata>
        },
{
    table.get(&key).copied()
}

/// Stores `metadata` under `key` and returns what was stored there before.
///
/// Calls `HashMap::insert`, which stores the value under the key, leaves
/// every other entry alone, and returns the value it replaced, if any.
#[verifier::external_body]
pub(crate) fn table_insert(
    table: &mut FxHashMap<u64, ComponentMetadata>,
    key: u64,
    metadata: ComponentMetadata,
) -> (previous: Option<ComponentMetadata>)
    ensures
        final(table)@ == old(table)@.insert(key, metadata),
        previous == if old(table)@.contains_key(key) {
            Some(old(table)@[key])
        } else {
            None::<ComponentMetadata>
        },
{
    table.insert(key, metadata)
}

/// Returns `true` if the table holds an entry under `key`.
///
/// Calls `HashMap::contains_key`, which says whether the map holds a value
/// under the key.
#[verifier::external_body]
pub(crate) fn table_contains(table: &FxHashMap<u64, ComponentMetadata>, key: u64) -> (held: bool)
    ensures
        held == table@.contains_key(key),
{
    table.contains_key(&key)
}

} // verus!
