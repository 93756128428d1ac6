//! Group layouts: which component types are grouped together, decided once
//! before any storage is created.

use vstd::prelude::*;
use crate::masks::{MAX_GROUP_ARITY, MAX_GROUP_COUNT};

verus! {

/// Identifies a component type.
#[derive(Clone, Copy, PartialEq, Eq, Structural, PartialOrd, Ord, Hash, Debug)]
pub struct ComponentId(pub u64);

/// Why a layout was rejected.
#[derive(Clone, Copy, PartialEq, Eq, Structural, Debug)]
pub enum LayoutConflict {
    /// A family lists no group, or its last arity is not the number of its
    /// component types.
    ArityMismatch,
    /// The arities of a family are not strictly increasing from at least 1.
    AritiesNotIncreasing,
    /// A family spans more component types than a storage mask has bits.
    FamilyTooLarge,
    /// A component type occurs twice, in one family or in two.
    ComponentReused,
    /// The layout holds more groups than a group mask has bits.
    TooManyGroups,
}

/// Whether `arities` grow strictly, starting from at least 1.
pub open spec fn strictly_increasing(arities: Seq<usize>) -> bool {
    &&& forall|i: int| 0 <= i < arities.len() ==> 1 <= #[trigger] arities[i]
    &&& forall|i: int, j: int| 0 <= i < j < arities.len() ==> #[trigger] arities[i] < #[trigger] arities[j]
}

/// Whether no component type occurs twice in `components`.
pub open spec fn distinct(components: Seq<ComponentId>) -> bool {
    forall|i: int, j: int|
        0 <= i < j < components.len() ==> #[trigger] components[i] != #[trigger] components[j]
}

/// Which conflict, if any, a family with these component types and arities
/// shows. The checks are made in the order of the variants.
pub open spec fn family_conflict(
    components: Seq<ComponentId>,
    arities: Seq<usize>,
) -> Option<LayoutConflict> {
    if arities.len() == 0 || arities.last() != components.len() {
        Some(LayoutConflict::ArityMismatch)
    } else if !strictly_increasing(arities) {
        Some(LayoutConflict::AritiesNotIncreasing)
    } else if components.len() > MAX_GROUP_ARITY {
        Some(LayoutConflict::FamilyTooLarge)
    } else if !distinct(components) {
        Some(LayoutConflict::ComponentReused)
    } else {
        None
    }
}

/// Returns `true` if `arities` grow strictly, starting from at least 1.
pub fn is_strictly_increasing(arities: &Vec<usize>) -> (increasing: bool)
    ensures
        increasing == strictly_increasing(arities@),
{
    let mut i: usize = 0;
    let mut previous: usize = 0;
    while i < arities.len()
        invariant
            i <= arities.len(),
            i > 0 ==> previous == arities[i - 1],
            i == 0 ==> previous == 0,
            forall|k: int| 0 <= k < i ==> 1 <= #[trigger] arities[k],
            forall|k: int, l: int| 0 <= k < l < i ==> #[trigger] arities[k] < #[trigger] arities[l],
        decreases arities.len() - i,
    {
        let arity: usize = arities[i];
        if arity <= previous {
            proof {
                if i > 0 {
                    assert(!(arities[i - 1] < arities[i as int]));
                } else {
                    assert(!(1 <= arities[0]));
                }
            }
            return false;
        }
        previous = arity;
        i = i + 1;
    }
    true
}

/// Returns `true` if `component` occurs among the first `count` of
/// `components`.
pub fn occurs_before(components: &Vec<ComponentId>, count: usize, component: ComponentId) -> (found:
    bool)
    requires
        count <= components.len(),
    ensures
        found == exists|i: int| 0 <= i < count && components[i] == component,
{
    let mut i: usize = 0;
    while i < count
        invariant
            i <= count <= components.len(),
            forall|k: int| 0 <= k < i ==> components[k] != component,
        decreases count - i,
    {
        if components[i] == component {
            return true;
        }
        i = i + 1;
    }
    false
}

/// Returns `true` if no component type occurs twice in `components`.
pub fn is_distinct(components: &Vec<ComponentId>) -> (unique: bool)
    ensures
        unique == distinct(components@),
{
    let mut i: usize = 0;
    while i < components.len()
        invariant
            i <= components.len(),
            forall|k: int, l: int|
                0 <= k < l < i ==> #[trigger] components[k] != #[trigger] components[l],
        decreases components.len() - i,
    {
        if occurs_before(components, i, components[i]) {
            return false;
        }
        i = i + 1;
    }
    true
}

/// A family of nested groups: the component types it spans, and the arities
/// of its groups. The group of arity `a` is made of the family's first `a`
/// component types.
#[derive(Debug)]
pub struct GroupFamily {
    components: Vec<ComponentId>,
    arities: Vec<usize>,
}

impl GroupFamily {
    /// The component types of the family, in storage order.
    pub closed spec fn spec_components(&self) -> Seq<ComponentId> {
        self.components@
    }

    /// The arities of the family's groups, in group order.
    pub closed spec fn spec_arities(&self) -> Seq<usize> {
        self.arities@
    }

    /// A family is valid if it shows no conflict.
    pub open spec fn wf(&self) -> bool {
        family_conflict(self.spec_components(), self.spec_arities()) is None
    }

    /// Creates a family, or says which conflict its description shows.
    pub fn new(components: Vec<ComponentId>, arities: Vec<usize>) -> (family: Result<
        GroupFamily,
        LayoutConflict,
    >)
        ensures
            match family {
                Ok(f) => family_conflict(components@, arities@) is None && f.wf()
                    && f.spec_components() == components@ && f.spec_arities() == arities@,
                Err(conflict) => family_conflict(components@, arities@) == Some(conflict),
            },
    {
        if arities.len() == 0 || arities[arities.len() - 1] != components.len() {
            return Err(LayoutConflict::ArityMismatch);
        }
        if !is_strictly_increasing(&arities) {
            return Err(LayoutConflict::AritiesNotIncreasing);
        }
        if components.len() > MAX_GROUP_ARITY {
            return Err(LayoutConflict::FamilyTooLarge);
        }
        if !is_distinct(&components) {
            return Err(LayoutConflict::ComponentReused);
        }
        Ok(GroupFamily { components, arities })
    }

    /// Returns the component types of the family, in storage order.
    pub fn components(&self) -> (components: &Vec<ComponentId>)
        ensures
            components@ == self.spec_components(),
    {
        &self.components
    }

    /// Returns the arities of the family's groups, in group order.
    pub fn arities(&self) -> (arities: &Vec<usize>)
        ensures
            arities@ == self.spec_arities(),
    {
        &self.arities
    }
}

/// Whether some component type occurs in both lists.
pub open spec fn shares(a: Seq<ComponentId>, b: Seq<ComponentId>) -> bool {
    exists|i: int, j: int| 0 <= i < a.len() && 0 <= j < b.len() && #[trigger] a[i] == #[trigger] b[j]
}

/// Whether no two of the families have a component type in common.
pub open spec fn families_disjoint(families: Seq<GroupFamily>) -> bool {
    forall|f: int, g: int|
        0 <= f < g < families.len() ==> !shares(
            (#[trigger] families[f]).spec_components(),
            (#[trigger] families[g]).spec_components(),
        )
}

/// Number of groups in the first `count` families.
pub open spec fn group_count(families: Seq<GroupFamily>, count: nat) -> nat
    decreases count,
{
    if count == 0 {
        0
    } else {
        group_count(families, (count - 1) as nat) + families[count - 1].spec_arities().len()
    }
}

/// Number of component types in the first `count` families.
pub open spec fn storage_count(families: Seq<GroupFamily>, count: nat) -> nat
    decreases count,
{
    if count == 0 {
        0
    } else {
        storage_count(families, (count - 1) as nat) + families[count - 1].spec_components().len()
    }
}

/// Which conflict, if any, a list of valid families shows.
pub open spec fn layout_conflict(families: Seq<GroupFamily>) -> Option<LayoutConflict> {
    if group_count(families, families.len()) > MAX_GROUP_COUNT {
        Some(LayoutConflict::TooManyGroups)
    } else if !families_disjoint(families) {
        Some(LayoutConflict::ComponentReused)
    } else {
        None
    }
}

/// The number of groups grows with the number of families counted, and a
/// valid family counts for at least one group and at most 16 storages.
pub proof fn lemma_counts(families: Seq<GroupFamily>, few: nat, many: nat)
    requires
        few <= many <= families.len(),
        forall|f: int| 0 <= f < families.len() ==> (#[trigger] families[f]).wf(),
    ensures
        group_count(families, few) <= group_count(families, many),
        many - few <= group_count(families, many) - group_count(families, few),
        storage_count(families, few) <= storage_count(families, many),
        storage_count(families, many) <= 16 * many,
    decreases many,
{
    if many > 0 {
        assert(families[many - 1].wf());
        if few < many {
            lemma_counts(families, few, (many - 1) as nat);
        } else {
            lemma_counts(families, (many - 1) as nat, (many - 1) as nat);
        }
    }
}

/// Returns `true` if some component type occurs in both lists.
pub fn share(a: &Vec<ComponentId>, b: &Vec<ComponentId>) -> (common: bool)
    ensures
        common == shares(a@, b@),
{
    let mut j: usize = 0;
    while j < b.len()
        invariant
            j <= b.len(),
            forall|i: int, k: int| 0 <= i < a.len() && 0 <= k < j ==> #[trigger] a[i] != #[trigger] b[k],
        decreases b.len() - j,
    {
        if occurs_before(a, a.len(), b[j]) {
            return true;
        }
        j = j + 1;
    }
    false
}

/// Describes the groups of a component storage: an ordered list of
/// families that have no component type in common.
#[derive(Debug)]
pub struct GroupLayout {
    families: Vec<GroupFamily>,
}

impl GroupLayout {
    /// The families of the layout, in order.
    pub closed spec fn spec_families(&self) -> Seq<GroupFamily> {
        self.families@
    }

    /// A layout is valid if its families are valid and show no conflict with
    /// one another.
    pub open spec fn wf(&self) -> bool {
        &&& forall|f: int|
            0 <= f < self.spec_families().len() ==> (#[trigger] self.spec_families()[f]).wf()
        &&& layout_conflict(self.spec_families()) is None
    }

    /// The layout without any group.
    pub fn empty() -> (layout: GroupLayout)
        ensures
            layout.wf(),
            layout.spec_families().len() == 0,
    {
        GroupLayout { families: Vec::new() }
    }

    /// Creates a layout from valid families, or says which conflict they show
    /// with one another.
    pub fn new(families: Vec<GroupFamily>) -> (layout: Result<GroupLayout, LayoutConflict>)
        requires
            forall|f: int| 0 <= f < families.len() ==> (#[trigger] families[f]).wf(),
        ensures
            match layout {
                Ok(l) => layout_conflict(families@) is None && l.wf() && l.spec_families()
                    == families@,
                Err(conflict) => layout_conflict(families@) == Some(conflict),
            },
    {
        let mut total: usize = 0;
        let mut f: usize = 0;
        while f < families.len()
            invariant
                f <= families.len(),
                total == group_count(families@, f as nat),
                total <= MAX_GROUP_COUNT,
                forall|k: int| 0 <= k < families.len() ==> (#[trigger] families[k]).wf(),
            decreases families.len() - f,
        {
            let groups: usize = families[f].arities().len();
            if groups > MAX_GROUP_COUNT - total {
                proof {
                    lemma_counts(families@, (f + 1) as nat, families.len() as nat);
                }
                return Err(LayoutConflict::TooManyGroups);
            }
            total = total + groups;
            f = f + 1;
        }
        let mut g: usize = 0;
        while g < families.len()
            invariant
                g <= families.len(),
                group_count(families@, families.len() as nat) <= MAX_GROUP_COUNT,
                forall|a: int, b: int|
                    0 <= a < b < g ==> !shares(
                        (#[trigger] families[a]).spec_components(),
                        (#[trigger] families[b]).spec_components(),
                    ),
            decreases families.len() - g,
        {
            let mut e: usize = 0;
            while e < g
                invariant
                    e <= g < families.len(),
                    group_count(families@, families.len() as nat) <= MAX_GROUP_COUNT,
                    forall|a: int|
                        0 <= a < e ==> !shares(
                            (#[trigger] families[a]).spec_components(),
                            families[g as int].spec_components(),
                        ),
                decreases g - e,
            {
                if share(families[e].components(), families[g].components()) {
                    assert(shares(
                        families@[e as int].spec_components(),
                        families@[g as int].spec_components(),
                    ));
                    return Err(LayoutConflict::ComponentReused);
                }
                e = e + 1;
            }
            g = g + 1;
        }
        Ok(GroupLayout { families })
    }

    /// Returns the families of the layout, in order.
    pub fn families(&self) -> (families: &Vec<GroupFamily>)
        ensures
            families@ == self.spec_families(),
    {
        &self.families
    }
}

} // verus!
