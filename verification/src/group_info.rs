//! Handles that remember which group family a component view comes from, and
//! the windows of dense slots that combined views share.

use vstd::prelude::*;
use core::ops::Range;
use crate::group::Group;
use crate::masks::{QueryMask, StorageMask};

verus! {

/// Remembers the group family that one or more component views belong to:
/// the table of groups, the index of the family's first group, the offset
/// within the family of the last group that any of the views needs, and the
/// storages of the family that the views cover.
#[derive(Clone, Copy, Debug)]
pub struct GroupInfo<'a> {
    /// The groups of the storage the views were borrowed from.
    pub groups: &'a [Group],
    /// Index of the first group of the family; it identifies the family.
    pub family: usize,
    /// Offset, from the family's first group, of the group to look at.
    pub group_offset: usize,
    /// The family's storages that the views cover.
    pub storage_mask: StorageMask,
}

impl<'a> GroupInfo<'a> {
    /// Whether the group the info points to exists.
    pub open spec fn wf(&self) -> bool {
        self.family + self.group_offset < self.groups@.len()
    }

    /// Creates the info of views over the storages `storage_mask` of the
    /// family that starts at group `family`.
    #[must_use]
    pub fn new(
        groups: &'a [Group],
        family: usize,
        group_offset: usize,
        storage_mask: StorageMask,
    ) -> (info: Self)
        ensures
            info.groups@ == groups@,
            info.family == family,
            info.group_offset == group_offset,
            info.storage_mask == storage_mask,
    {
        GroupInfo { groups, family, group_offset, storage_mask }
    }

    /// What two infos combine to: nothing if they name different families,
    /// else the later of the two groups and the storages of both.
    pub open spec fn combined(self, other: Self) -> Option<Self> {
        if self.family != other.family {
            None
        } else {
            Some(
                GroupInfo {
                    groups: self.groups,
                    family: self.family,
                    group_offset: if self.group_offset >= other.group_offset {
                        self.group_offset
                    } else {
                        other.group_offset
                    },
                    storage_mask: StorageMask(self.storage_mask.0 | other.storage_mask.0),
                },
            )
        }
    }

    /// Combines the infos of two sets of views. The result is `None` if the
    /// views come from different families and so cannot share a group.
    #[must_use]
    pub fn combine(&self, other: &Self) -> (both: Option<Self>)
        ensures
            both == self.combined(*other),
    {
        if self.family != other.family {
            return None;
        }
        let group_offset: usize = if self.group_offset >= other.group_offset {
            self.group_offset
        } else {
            other.group_offset
        };
        Some(
            GroupInfo {
                groups: self.groups,
                family: self.family,
                group_offset,
                storage_mask: self.storage_mask.union(other.storage_mask),
            },
        )
    }

    /// The group the info points to.
    pub open spec fn group(self) -> Group {
        self.groups@[self.family + self.group_offset]
    }

    /// Number of dense slots that the views share, if the views cover
    /// exactly the storages of the group the info points to.
    pub open spec fn shared_len(self) -> Option<usize> {
        if (QueryMask { included: self.storage_mask, excluded: StorageMask(0) })
            == self.group().metadata.include_mask {
            Some(self.group().len)
        } else {
            None
        }
    }

    /// Returns the number of entities that sit, in the same order, at the
    /// front of every view, if the views cover exactly the storages of a
    /// group.
    #[must_use]
    pub fn group_len(&self) -> (len: Option<usize>)
        requires
            self.wf(),
        ensures
            len == self.shared_len(),
    {
        let count: usize = self.groups.len();
        assert(self.family + self.group_offset < count);
        let group: Group = self.groups[self.family + self.group_offset];
        let mask = QueryMask { included: self.storage_mask, excluded: StorageMask::none() };
        if mask == group.metadata.include_mask {
            Some(group.len)
        } else {
            None
        }
    }

    /// Returns the window of dense slots shared by the views, if the views
    /// cover exactly the storages of a group. The window starts at 0.
    #[must_use]
    pub fn include_group_range(&self) -> (range: Option<Range<usize>>)
        requires
            self.wf(),
        ensures
            match self.shared_len() {
                Some(len) => range == Some(0usize..len),
                None => range is None,
            },
    {
        match self.group_len() {
            Some(len) => Some(0..len),
            None => None,
        }
    }

    /// The window of dense slots of the entities that the views of `self`
    /// share and that are not grouped with the views of `excluded` added.
    pub open spec fn excluding_window(self, excluded: Self) -> Option<Range<usize>> {
        match self.combined(excluded) {
            None => None,
            Some(both) => if both.group_offset > 0 && (QueryMask {
                included: self.storage_mask,
                excluded: excluded.storage_mask,
            }) == both.group().metadata.exclude_mask {
                Some(both.group().len..self.groups@[both.family + both.group_offset - 1].len)
            } else {
                None
            },
        }
    }

    /// Returns the window of dense slots that hold the entities which sit in
    /// the group before the one that `self` and `excluded` point to, but not
    /// in that group itself. The result is `None` unless the views of `self`
    /// cover exactly the storages of the earlier group and the views of
    /// `excluded` exactly the storages that the later group adds.
    #[must_use]
    pub fn exclude_group_range(&self, excluded: &GroupInfo) -> (range: Option<Range<usize>>)
        requires
            self.wf(),
            self.family + excluded.group_offset < self.groups@.len(),
        ensures
            range == self.excluding_window(*excluded),
    {
        if self.family != excluded.family {
            return None;
        }
        let group_offset: usize = if self.group_offset >= excluded.group_offset {
            self.group_offset
        } else {
            excluded.group_offset
        };
        let count: usize = self.groups.len();
        assert(self.family + group_offset < count);
        let group: Group = self.groups[self.family + group_offset];
        let mask = QueryMask { included: self.storage_mask, excluded: excluded.storage_mask };
        if group_offset > 0 && mask == group.metadata.exclude_mask {
            let previous: Group = self.groups[self.family + group_offset - 1];
            Some(group.len..previous.len)
        } else {
            None
        }
    }
}

/// A group family: the table of groups it lives in and the index of its
/// first group.
#[derive(Clone, Copy, Debug)]
pub struct FamilyRef<'a> {
    /// The groups of the storage.
    pub groups: &'a [Group],
    /// Index of the first group of the family; it identifies the family.
    pub family: usize,
}

/// Tracks the group family that several component views belong to, starting
/// from no view at all.
#[derive(Clone, Copy, Debug)]
pub struct CombinedGroupInfo<'a> {
    /// The groups and the family of the views combined so far, if any.
    pub group_family: Option<FamilyRef<'a>>,
    /// Largest group offset among the views combined so far.
    pub max_group_offset: usize,
    /// The family's storages covered by the views combined so far.
    pub storage_mask: StorageMask,
}

impl<'a> CombinedGroupInfo<'a> {
    /// The info of no view.
    pub fn empty() -> (info: Self)
        ensures
            info.group_family is None,
            info.max_group_offset == 0,
            info.storage_mask.0 == 0,
    {
        CombinedGroupInfo {
            group_family: None,
            max_group_offset: 0,
            storage_mask: StorageMask::none(),
        }
    }

    /// What the info becomes when the info of one more view is added:
    /// nothing if the view comes from another family.
    pub open spec fn combined(self, info: GroupInfo<'a>) -> Option<Self> {
        match self.group_family {
            Some(found) => if found.family == info.family {
                Some(
                    CombinedGroupInfo {
                        group_family: Some(found),
                        max_group_offset: if self.max_group_offset >= info.group_offset {
                            self.max_group_offset
                        } else {
                            info.group_offset
                        },
                        storage_mask: StorageMask(self.storage_mask.0 | info.storage_mask.0),
                    },
                )
            } else {
                None
            },
            None => Some(
                CombinedGroupInfo {
                    group_family: Some(FamilyRef { groups: info.groups, family: info.family }),
                    max_group_offset: info.group_offset,
                    storage_mask: info.storage_mask,
                },
            ),
        }
    }

    /// Adds the info of one more view. The result is `None` if the view comes
    /// from another family than the views combined so far.
    #[must_use]
    pub fn combine(self, info: GroupInfo<'a>) -> (both: Option<Self>)
        ensures
            both == self.combined(info),
    {
        match self.group_family {
            Some(found) => {
                if found.family == info.family {
                    let max_group_offset: usize = if self.max_group_offset >= info.group_offset {
                        self.max_group_offset
                    } else {
                        info.group_offset
                    };
                    Some(
                        CombinedGroupInfo {
                            group_family: Some(found),
                            max_group_offset,
                            storage_mask: self.storage_mask.union(info.storage_mask),
                        },
                    )
                } else {
                    None
                }
            },
            None => Some(
                CombinedGroupInfo {
                    group_family: Some(FamilyRef { groups: info.groups, family: info.family }),
                    max_group_offset: info.group_offset,
                    storage_mask: info.storage_mask,
                },
            ),
        }
    }
}

/// The family that the first `count` of `families` have in common, taking
/// no account of those that name none: `Ok(None)` if none names a family,
/// `Err(())` if two name different families.
pub open spec fn common_family(families: Seq<Option<usize>>, count: nat) -> Result<
    Option<usize>,
    (),
>
    decreases count,
{
    if count == 0 {
        Ok(None)
    } else {
        match common_family(families, (count - 1) as nat) {
            Err(_) => Err(()),
            Ok(None) => Ok(families[count - 1]),
            Ok(Some(family)) => match families[count - 1] {
                Some(other) => if other == family {
                    Ok(Some(family))
                } else {
                    Err(())
                },
                None => Ok(Some(family)),
            },
        }
    }
}

/// Returns the one family that `families` name, if they name one and only
/// one. Entries that name no family are passed over.
pub fn common_group_family(families: &[Option<usize>]) -> (family: Option<usize>)
    ensures
        family == match common_family(families@, families@.len()) {
            Ok(common) => common,
            Err(_) => None::<usize>,
        },
{
    let mut family: Option<usize> = None;
    let mut i: usize = 0;
    while i < families.len()
        invariant
            i <= families.len(),
            common_family(families@, i as nat) == Ok::<Option<usize>, ()>(family),
        decreases families.len() - i,
    {
        match families[i] {
            Some(other) => {
                match family {
                    Some(current) => {
                        if current != other {
                            proof {
                                lemma_common_family_fails(families@, (i + 1) as nat, families@.len());
                            }
                            return None;
                        }
                    },
                    None => {
                        family = Some(other);
                    },
                }
            },
            None => {},
        }
        i = i + 1;
    }
    family
}

/// Once two families differ, no further entry mends it.
pub proof fn lemma_common_family_fails(families: Seq<Option<usize>>, failed: nat, count: nat)
    requires
        failed <= count,
        common_family(families, failed) is Err,
    ensures
        common_family(families, count) is Err,
    decreases count,
{
    if failed < count {
        lemma_common_family_fails(families, failed, (count - 1) as nat);
    }
}

/// The window of dense slots that the views of a query share: the grouped
/// entities of the group that the views point to, if base and included views
/// cover the group's storages and nothing is excluded; the entities grouped
/// in the group before but not in this one, if base and included views cover
/// the earlier group's storages and the excluded views the storages that
/// this group adds.
pub open spec fn shared_window(
    groups: Seq<Group>,
    family: usize,
    base: CombinedGroupInfo,
    included: CombinedGroupInfo,
    excluded: CombinedGroupInfo,
) -> Option<Range<usize>> {
    let offset = max3(base.max_group_offset, included.max_group_offset, excluded.max_group_offset);
    let group = groups[family + offset];
    let mask = QueryMask {
        included: StorageMask(base.storage_mask.0 | included.storage_mask.0),
        excluded: excluded.storage_mask,
    };
    if mask == group.metadata.include_mask {
        Some(0usize..group.len)
    } else if offset > 0 && mask == group.metadata.exclude_mask {
        Some(group.len..groups[family + offset - 1].len)
    } else {
        None
    }
}

/// The largest of three offsets.
pub open spec fn max3(a: usize, b: usize, c: usize) -> usize {
    if a >= b && a >= c {
        a
    } else if b >= c {
        b
    } else {
        c
    }
}

/// The family named by a combined info, if it names one.
pub open spec fn family_of(info: CombinedGroupInfo) -> Option<usize> {
    match info.group_family {
        Some(found) => Some(found.family),
        None => None,
    }
}

/// The groups that the first of three combined infos that names a family
/// lives in.
pub open spec fn groups_of(
    base: CombinedGroupInfo,
    included: CombinedGroupInfo,
    excluded: CombinedGroupInfo,
) -> Seq<Group> {
    match base.group_family {
        Some(found) => found.groups@,
        None => match included.group_family {
            Some(found) => found.groups@,
            None => match excluded.group_family {
                Some(found) => found.groups@,
                None => Seq::empty(),
            },
        },
    }
}

/// The window of dense slots that base, included and excluded views have
/// in common: none if the views name no family, or different families, or a
/// group that does not exist; else the window that the group they point to
/// shares.
pub open spec fn ranged(
    base: CombinedGroupInfo,
    included: CombinedGroupInfo,
    excluded: CombinedGroupInfo,
) -> Option<Range<usize>> {
    match common_family(seq![family_of(base), family_of(included), family_of(excluded)], 3) {
        Ok(Some(family)) => if family + max3(
            base.max_group_offset,
            included.max_group_offset,
            excluded.max_group_offset,
        ) >= groups_of(base, included, excluded).len() {
            None
        } else {
            shared_window(groups_of(base, included, excluded), family, base, included, excluded)
        },
        _ => None,
    }
}

/// What three optional families have in common: the family that those
/// which name one agree on.
pub proof fn lemma_common_of_three(a: Option<usize>, b: Option<usize>, c: Option<usize>)
    ensures
        common_family(seq![a, b, c], 3) == if a is Some && b is Some && a != b || a is Some
            && c is Some && a != c || b is Some && c is Some && b != c {
            Err::<Option<usize>, ()>(())
        } else if a is Some {
            Ok(a)
        } else if b is Some {
            Ok(b)
        } else {
            Ok(c)
        },
{
    let all = seq![a, b, c];
    assert(all[0] == a && all[1] == b && all[2] == c);
    assert(common_family(all, 0) == Ok::<Option<usize>, ()>(None));
    assert(common_family(all, 1) == Ok::<Option<usize>, ()>(a));
    assert(common_family(all, 2) == if a is Some && b is Some && a != b {
        Err::<Option<usize>, ()>(())
    } else if a is Some {
        Ok(a)
    } else {
        Ok(b)
    });
}

/// Returns the window of dense slots that the views of a query have in
/// common, if base, included and excluded views belong to one family and
/// form a group of it; `None` otherwise, and the query then has to look
/// entities up one by one.
pub fn group_range<'a>(
    base: CombinedGroupInfo<'a>,
    included: CombinedGroupInfo<'a>,
    excluded: CombinedGroupInfo<'a>,
) -> (range: Option<Range<usize>>)
    ensures
        range == ranged(base, included, excluded),
{
    let mut families: Vec<Option<usize>> = Vec::new();
    families.push(family_number(&base));
    families.push(family_number(&included));
    families.push(family_number(&excluded));
    proof {
        assert(families@ =~= seq![family_of(base), family_of(included), family_of(excluded)]);
        lemma_common_of_three(family_of(base), family_of(included), family_of(excluded));
    }
    let family: usize = match common_group_family(families.as_slice()) {
        Some(family) => family,
        None => {
            return None;
        },
    };
    let groups = match base.group_family {
        Some(found) => found.groups,
        None => match included.group_family {
            Some(found) => found.groups,
            None => match excluded.group_family {
                Some(found) => found.groups,
                None => {
                    return None;
                },
            },
        },
    };
    let mut offset: usize = base.max_group_offset;
    if included.max_group_offset > offset {
        offset = included.max_group_offset;
    }
    if excluded.max_group_offset > offset {
        offset = excluded.max_group_offset;
    }
    let count: usize = groups.len();
    if family >= count || offset >= count - family {
        return None;
    }
    let mask = QueryMask {
        included: base.storage_mask.union(included.storage_mask),
        excluded: excluded.storage_mask,
    };
    let group: Group = groups[family + offset];
    if mask == group.metadata.include_mask {
        Some(0..group.len)
    } else if offset > 0 && mask == group.metadata.exclude_mask {
        let previous: Group = groups[family + offset - 1];
        Some(group.len..previous.len)
    } else {
        None
    }
}

/// Returns the family that a combined info names, if it names one.
pub fn family_number(info: &CombinedGroupInfo) -> (family: Option<usize>)
    ensures
        family == family_of(*info),
{
    match info.group_family {
        Some(found) => Some(found.family),
        None => None,
    }
}

} // verus!
