//! Sparse-set based entity-component storage.
//!
//! Components of one type live in a [`ComponentSparseSet`]: a sparse vec
//! that finds the dense position of an entity, and dense arrays of entities,
//! components and change ticks. A [`ComponentStorage`] owns the sparse sets
//! of all registered component types and lays groups over them: families of
//! component types whose sparse sets are kept co-sorted, so that the entities
//! which hold every component of a group sit, in the same order, at the front
//! of each of the group's sets. Queries over views of grouped types then walk
//! a window of dense slots instead of looking entities up one by one.
//!
//! Every function of the library is verified against its contract. The
//! contracts are stated over mathematical models: [`SparseSetView`] for a
//! sparse set, sequences of those and of [`Group`] for a storage. The
//! invariants (`wf`, [`disciplined`]) are established by constructors and
//! preserved by every operation, and the laws that relate several operations
//! are public proof functions next to the operations they speak of.

pub mod component_storage;
pub mod entity;
pub mod entity_storage;
pub mod group;
pub mod group_info;
pub mod iter;
pub mod laid_out;
pub mod layout;
pub mod masks;
pub mod query;
pub mod registry;
pub mod sparse_set;
pub mod sparse_vec;
pub mod system_borrow;
pub mod ticks;
pub mod upkeep;
pub mod view;
pub mod window;
pub mod world;

pub use component_storage::ComponentStorage;
pub use entity::{Entity, Version};
pub use entity_storage::{EntityAllocator, EntityStorage};
pub use group::{disciplined, Group, GroupMetadata};
pub use group_info::{CombinedGroupInfo, GroupInfo};
pub use iter::{ComponentQuery, DenseIter, QueryIter, SparseIter};
pub use layout::{ComponentId, GroupFamily, GroupLayout, LayoutConflict};
pub use masks::{GroupMask, QueryMask, StorageMask};
pub use query::{Query, QueryElement, QueryModifier};
pub use sparse_set::{ComponentSparseSet, SparseSetView};
pub use sparse_vec::SparseVec;
pub use system_borrow::{BorrowConflict, SystemBorrow};
pub use ticks::{
    Added, ChangeTicks, ChangeTicksFilter, Changed, ComponentFlags, ComponentRefMut, Passthrough,
    TickOverflow, Ticks,
};
pub use view::{Comp, CompMut, ComponentViewData, SliceComponent};
pub use world::{BorrowFromWorld, NoSuchEntity, World, WorldId};
