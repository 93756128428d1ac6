//! Entity identifiers: a sparse index paired with a version.

use vstd::prelude::*;

verus! {

/// Version used to distinguish between entities with the same index.
///
/// A version is never zero.
#[derive(Clone, Copy, PartialEq, Eq, Structural, PartialOrd, Ord, Hash, Debug)]
pub struct Version {
    value: u32,
}

impl Version {
    #[verifier::type_invariant]
    spec fn nonzero(self) -> bool {
        self.value != 0
    }

    /// The number held by this version.
    pub closed spec fn view(self) -> nat {
        self.value as nat
    }

    /// The first valid version, numbered 1.
    pub closed spec fn spec_first() -> Version {
        Version { value: 1 }
    }

    /// The first version is numbered 1, a version is determined by its
    /// number, and no version is numbered beyond `u32::MAX`.
    pub proof fn lemma_first(version: Version)
        ensures
            Version::spec_first()@ == 1,
            version@ == 1 ==> version == Version::spec_first(),
            version@ <= u32::MAX,
    {
    }

    /// Creates a version from `value`, which must not be zero.
    pub fn new(value: u32) -> (version: Option<Version>)
        ensures
            value == 0 <==> version is None,
            version matches Some(v) ==> v@ == value,
    {
        if value == 0 {
            None
        } else {
            Some(Version { value })
        }
    }

    /// The first valid version.
    pub fn first() -> (version: Version)
        ensures
            version@ == 1,
            version == Version::spec_first(),
    {
        Version { value: 1 }
    }

    /// The last valid version.
    pub fn last() -> (version: Version)
        ensures
            version@ == u32::MAX,
    {
        Version { value: u32::MAX }
    }

    /// Returns the number held by this version.
    pub fn get(&self) -> (value: u32)
        ensures
            value == self@,
            value != 0,
    {
        proof {
            use_type_invariant(self);
        }
        self.value
    }

    /// Returns the next available version, if any.
    #[must_use]
    pub fn next(&self) -> (next: Option<Version>)
        ensures
            self@ <= u32::MAX,
            self@ == u32::MAX <==> next is None,
            next matches Some(v) ==> v@ == self@ + 1,
    {
        if self.value == u32::MAX {
            None
        } else {
            Some(Version { value: self.value + 1 })
        }
    }
}

impl Default for Version {
    fn default() -> (version: Version)
        ensures
            version@ == 1,
    {
        Version::first()
    }
}

/// Uniquely identifies a set of components.
///
/// Two entities are the same only if both their index and their version
/// agree; the index alone is the coordinate used by sparse lookups. Entities
/// are ordered by version first and by index second, which is the order of
/// the fields.
#[derive(Clone, Copy, PartialEq, Eq, Structural, PartialOrd, Ord, Hash, Debug)]
pub struct Entity {
    /// The version of the entity.
    pub version: Version,
    /// The sparse index of the entity.
    pub index: u32,
}

impl Entity {
    /// Creates a new entity with the given `index` and `version`.
    #[must_use]
    pub fn new(index: u32, version: Version) -> (entity: Entity)
        ensures
            entity.index == index,
            entity.version == version,
    {
        Entity { index, version }
    }

    /// Creates a new entity with the given `index` and the first version.
    #[must_use]
    pub fn with_index(index: u32) -> (entity: Entity)
        ensures
            entity.index == index,
            entity.version@ == 1,
            entity.version == Version::spec_first(),
    {
        Entity { index, version: Version::first() }
    }

    /// Returns the index of the entity extended to a `usize`.
    #[must_use]
    pub fn sparse(&self) -> (sparse: usize)
        ensures
            sparse == self.index,
    {
        self.index as usize
    }

    /// Whether `self` is ordered before `other`: by version first, then by
    /// index.
    pub open spec fn precedes_spec(self, other: Entity) -> bool {
        self.version@ < other.version@ || (self.version@ == other.version@ && self.index
            < other.index)
    }

    /// Returns `true` if `self` is ordered strictly before `other`.
    ///
    /// Entities are ordered by version first and by index second.
    pub fn precedes(&self, other: &Entity) -> (before: bool)
        ensures
            before == self.precedes_spec(*other),
    {
        let a: u32 = self.version.get();
        let b: u32 = other.version.get();
        a < b || (a == b && self.index < other.index)
    }
}

} // verus!
