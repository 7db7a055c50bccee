//! The validator: checks a container's attributes against its property list
//! before any decoding is attempted. The checks run in a fixed order and the
//! first violated check aborts the validation, so the returned conflict names
//! the first offending declaration.

use vstd::prelude::*;
use crate::descriptor::{
    AttributeConflict, Container, ContainerAttributes, PartitionKind, Property,
    container_ok, container_tree_ok, has_key_prop, has_merge_prop, key_merge_exclusive,
    merge_shape_ok, split_placement_ok, stride_placement_ok,
};

verus! {

/// Rejects a property marked `split` in a container whose partition kind is
/// not `Split`; the conflict names the first such property.
pub fn check_split_in_non_split_container(
    container: &ContainerAttributes,
    props: &Vec<Property>,
) -> (r: Result<(), AttributeConflict>)
    ensures
        r is Ok <==> split_placement_ok(*container, props@),
        r matches Err(e) ==> match e {
            AttributeConflict::SplitOutsideSplitContainer { prop } => {
                &&& container.partition != Some(PartitionKind::Split)
                &&& prop < props@.len()
                &&& props@[prop as int].split is Some
                &&& forall|i: int| 0 <= i < prop ==> (#[trigger] props@[i]).split is None
            },
            _ => false,
        },
{
    let is_split = match container.partition {
        Some(PartitionKind::Split) => true,
        _ => false,
    };
    if is_split {
        return Ok(());
    }
    let mut i: usize = 0;
    while i < props.len()
        invariant
            i <= props@.len(),
            container.partition != Some(PartitionKind::Split),
            forall|k: int| 0 <= k < i ==> (#[trigger] props@[k]).split is None,
        decreases props@.len() - i,
    {
        if props[i].split.is_some() {
            return Err(AttributeConflict::SplitOutsideSplitContainer { prop: i });
        }
        i += 1;
    }
    Ok(())
}

/// Rejects a property carrying `stride` in a container whose partition kind
/// is not `Exact`; the conflict names the first such property.
pub fn check_stride_in_non_exact_container(
    container: &ContainerAttributes,
    props: &Vec<Property>,
) -> (r: Result<(), AttributeConflict>)
    ensures
        r is Ok <==> stride_placement_ok(*container, props@),
        r matches Err(e) ==> match e {
            AttributeConflict::StrideOutsideExactContainer { prop } => {
                &&& container.partition != Some(PartitionKind::Exact)
                &&& prop < props@.len()
                &&& props@[prop as int].stride is Some
                &&& forall|i: int| 0 <= i < prop ==> (#[trigger] props@[i]).stride is None
            },
            _ => false,
        },
{
    let is_exact = match container.partition {
        Some(PartitionKind::Exact) => true,
        _ => false,
    };
    if is_exact {
        return Ok(());
    }
    let mut i: usize = 0;
    while i < props.len()
        invariant
            i <= props@.len(),
            container.partition != Some(PartitionKind::Exact),
            forall|k: int| 0 <= k < i ==> (#[trigger] props@[k]).stride is None,
        decreases props@.len() - i,
    {
        if props[i].stride.is_some() {
            return Err(AttributeConflict::StrideOutsideExactContainer { prop: i });
        }
        i += 1;
    }
    Ok(())
}

/// Checks the merge shape: a merging container must declare at least one key
/// field and at least one merge field; a non-merging container must declare
/// neither. Under a non-merging container the key fields are checked first,
/// and the conflict names the first offending property.
pub fn check_merging_container_attributes(
    container: &ContainerAttributes,
    props: &Vec<Property>,
) -> (r: Result<(), AttributeConflict>)
    ensures
        r is Ok <==> merge_shape_ok(*container, props@),
        r matches Err(e) ==> match e {
            AttributeConflict::MissingKeyField => {
                container.merge is Some && !has_key_prop(props@)
            },
            AttributeConflict::MissingMergeField => {
                container.merge is Some && has_key_prop(props@) && !has_merge_prop(props@)
            },
            AttributeConflict::KeyOutsideMergingContainer { prop } => {
                &&& container.merge is None
                &&& prop < props@.len()
                &&& props@[prop as int].key
                &&& forall|i: int| 0 <= i < prop ==> !(#[trigger] props@[i]).key
            },
            AttributeConflict::MergeOutsideMergingContainer { prop } => {
                &&& container.merge is None
                &&& !has_key_prop(props@)
                &&& prop < props@.len()
                &&& props@[prop as int].merge
                &&& forall|i: int| 0 <= i < prop ==> !(#[trigger] props@[i]).merge
            },
            _ => false,
        },
{
    if container.merge.is_some() {
        let mut has_key = false;
        let mut has_merge = false;
        let mut i: usize = 0;
        while i < props.len()
            invariant
                i <= props@.len(),
                has_key <==> exists|k: int| 0 <= k < i && (#[trigger] props@[k]).key,
                has_merge <==> exists|k: int| 0 <= k < i && (#[trigger] props@[k]).merge,
            decreases props@.len() - i,
        {
            if props[i].key {
                has_key = true;
            }
            if props[i].merge {
                has_merge = true;
            }
            i += 1;
        }
        if !has_key {
            Err(AttributeConflict::MissingKeyField)
        } else if !has_merge {
            Err(AttributeConflict::MissingMergeField)
        } else {
            Ok(())
        }
    } else {
        let mut i: usize = 0;
        while i < props.len()
            invariant
                i <= props@.len(),
                container.merge is None,
                forall|k: int| 0 <= k < i ==> !(#[trigger] props@[k]).key,
            decreases props@.len() - i,
        {
            if props[i].key {
                proof {
                    assert(0 <= i < props@.len() && props@[i as int].key);
                    assert(has_key_prop(props@));
                }
                return Err(AttributeConflict::KeyOutsideMergingContainer { prop: i });
            }
            i += 1;
        }
        let mut j: usize = 0;
        while j < props.len()
            invariant
                j <= props@.len(),
                container.merge is None,
                forall|k: int| 0 <= k < props@.len() ==> !(#[trigger] props@[k]).key,
                forall|k: int| 0 <= k < j ==> !(#[trigger] props@[k]).merge,
            decreases props@.len() - j,
        {
            if props[j].merge {
                proof {
                    assert(0 <= j < props@.len() && props@[j as int].merge);
                    assert(has_merge_prop(props@));
                }
                return Err(AttributeConflict::MergeOutsideMergingContainer { prop: j });
            }
            j += 1;
        }
        Ok(())
    }
}

/// Rejects a property that carries both `key` and `merge`; the conflict names
/// the first such property.
pub fn check_not_key_and_merge(props: &Vec<Property>) -> (r: Result<(), AttributeConflict>)
    ensures
        r is Ok <==> key_merge_exclusive(props@),
        r matches Err(e) ==> match e {
            AttributeConflict::KeyAndMergeOnOneProperty { prop } => {
                &&& prop < props@.len()
                &&& props@[prop as int].key
                &&& props@[prop as int].merge
                &&& forall|i: int|
                    0 <= i < prop ==> !((#[trigger] props@[i]).key && props@[i].merge)
            },
            _ => false,
        },
{
    let mut i: usize = 0;
    while i < props.len()
        invariant
            i <= props@.len(),
            forall|k: int| 0 <= k < i ==> !((#[trigger] props@[k]).key && props@[k].merge),
        decreases props@.len() - i,
    {
        if props[i].key && props[i].merge {
            return Err(AttributeConflict::KeyAndMergeOnOneProperty { prop: i });
        }
        i += 1;
    }
    Ok(())
}

/// Validates one container shape, nested containers not considered. Accepts
/// exactly when all five invariants hold; on rejection the conflict is the
/// one produced by the first violated check, in the order: split placement,
/// stride placement, merge shape, key/merge exclusivity.
pub fn validate_properties(
    container: &ContainerAttributes,
    props: &Vec<Property>,
) -> (r: Result<(), AttributeConflict>)
    ensures
        r is Ok <==> container_ok(*container, props@),
        r matches Err(e) ==> match e {
            AttributeConflict::SplitOutsideSplitContainer { prop } => {
                &&& container.partition != Some(PartitionKind::Split)
                &&& prop < props@.len()
                &&& props@[prop as int].split is Some
                &&& forall|i: int| 0 <= i < prop ==> (#[trigger] props@[i]).split is None
            },
            AttributeConflict::StrideOutsideExactContainer { prop } => {
                &&& split_placement_ok(*container, props@)
                &&& container.partition != Some(PartitionKind::Exact)
                &&& prop < props@.len()
                &&& props@[prop as int].stride is Some
                &&& forall|i: int| 0 <= i < prop ==> (#[trigger] props@[i]).stride is None
            },
            AttributeConflict::MissingKeyField => {
                &&& split_placement_ok(*container, props@)
                &&& stride_placement_ok(*container, props@)
                &&& container.merge is Some
                &&& !has_key_prop(props@)
            },
            AttributeConflict::MissingMergeField => {
                &&& split_placement_ok(*container, props@)
                &&& stride_placement_ok(*container, props@)
                &&& container.merge is Some
                &&& has_key_prop(props@)
                &&& !has_merge_prop(props@)
            },
            AttributeConflict::KeyOutsideMergingContainer { prop } => {
                &&& split_placement_ok(*container, props@)
                &&& stride_placement_ok(*container, props@)
                &&& container.merge is None
                &&& prop < props@.len()
                &&& props@[prop as int].key
                &&& forall|i: int| 0 <= i < prop ==> !(#[trigger] props@[i]).key
            },
            AttributeConflict::MergeOutsideMergingContainer { prop } => {
                &&& split_placement_ok(*container, props@)
                &&& stride_placement_ok(*container, props@)
                &&& container.merge is None
                &&& !has_key_prop(props@)
                &&& prop < props@.len()
                &&& props@[prop as int].merge
                &&& forall|i: int| 0 <= i < prop ==> !(#[trigger] props@[i]).merge
            },
            AttributeConflict::KeyAndMergeOnOneProperty { prop } => {
                &&& split_placement_ok(*container, props@)
                &&& stride_placement_ok(*container, props@)
                &&& merge_shape_ok(*container, props@)
                &&& prop < props@.len()
                &&& props@[prop as int].key
                &&& props@[prop as int].merge
                &&& forall|i: int|
                    0 <= i < prop ==> !((#[trigger] props@[i]).key && props@[i].merge)
            },
        },
{
    match check_split_in_non_split_container(container, props) {
        Ok(()) => {},
        Err(e) => {
            return Err(e);
        },
    }
    match check_stride_in_non_exact_container(container, props) {
        Ok(()) => {},
        Err(e) => {
            return Err(e);
        },
    }
    match check_merging_container_attributes(container, props) {
        Ok(()) => {},
        Err(e) => {
            return Err(e);
        },
    }
    match check_not_key_and_merge(props) {
        Ok(()) => {},
        Err(e) => {
            return Err(e);
        },
    }
    Ok(())
}

/// Validates a container and, recursively, every nested container reached
/// through a `split` property. Accepts exactly when the whole descriptor tree
/// satisfies the invariants.
pub fn validate_container_tree(c: &Container) -> (r: Result<(), AttributeConflict>)
    ensures
        r is Ok <==> container_tree_ok(*c),
    decreases *c,
{
    match validate_properties(&c.attrs, &c.props) {
        Ok(()) => {},
        Err(e) => {
            return Err(e);
        },
    }
    let mut i: usize = 0;
    while i < c.props.len()
        invariant
            i <= c.props@.len(),
            container_ok(c.attrs, c.props@),
            forall|k: int|
                0 <= k < i ==> ((#[trigger] c.props@[k]).split matches Some(n)
                    ==> container_tree_ok(*n)),
        decreases c.props@.len() - i,
    {
        match &c.props[i].split {
            None => {},
            Some(nested) => {
                match validate_container_tree(nested) {
                    Ok(()) => {},
                    Err(e) => {
                        return Err(e);
                    },
                }
            },
        }
        i += 1;
    }
    Ok(())
}

} // verus!
