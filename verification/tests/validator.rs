use row_decode::descriptor::{
    AttributeConflict, ColumnType, Container, ContainerAttributes, MergeKind, PartitionKind,
    Property,
};
use row_decode::validate::{validate_container_tree, validate_properties};

fn plain(ty: ColumnType) -> Property {
    Property { ty, split: None, stride: None, key: false, merge: false }
}

#[test]
fn accepts_plain_container() {
    let attrs = ContainerAttributes { partition: None, merge: None };
    let props = vec![plain(ColumnType::Int), plain(ColumnType::Boolean)];
    assert_eq!(validate_properties(&attrs, &props), Ok(()));
}

#[test]
fn accepts_split_container_with_split_property() {
    let nested = Container {
        attrs: ContainerAttributes { partition: None, merge: None },
        props: vec![plain(ColumnType::Int)],
    };
    let attrs = ContainerAttributes { partition: Some(PartitionKind::Split), merge: None };
    let props = vec![
        Property {
            ty: ColumnType::Int,
            split: Some(Box::new(nested)),
            stride: None,
            key: false,
            merge: false,
        },
        plain(ColumnType::Int),
    ];
    assert_eq!(validate_properties(&attrs, &props), Ok(()));
    let c = Container { attrs, props };
    assert_eq!(validate_container_tree(&c), Ok(()));
}

#[test]
fn rejects_split_in_non_split_container() {
    let nested = Container {
        attrs: ContainerAttributes { partition: None, merge: None },
        props: vec![plain(ColumnType::Int)],
    };
    let attrs = ContainerAttributes { partition: None, merge: None };
    let props = vec![
        plain(ColumnType::Int),
        Property {
            ty: ColumnType::Int,
            split: Some(Box::new(nested)),
            stride: None,
            key: false,
            merge: false,
        },
    ];
    assert_eq!(
        validate_properties(&attrs, &props),
        Err(AttributeConflict::SplitOutsideSplitContainer { prop: 1 })
    );
}

#[test]
fn rejects_stride_in_non_exact_container() {
    let attrs = ContainerAttributes { partition: Some(PartitionKind::Split), merge: None };
    let props = vec![Property {
        ty: ColumnType::Int,
        split: None,
        stride: Some(2),
        key: false,
        merge: false,
    }];
    assert_eq!(
        validate_properties(&attrs, &props),
        Err(AttributeConflict::StrideOutsideExactContainer { prop: 0 })
    );
}

#[test]
fn rejects_merging_container_without_key() {
    let attrs = ContainerAttributes { partition: None, merge: Some(MergeKind::Group) };
    let mut merge_prop = plain(ColumnType::Int);
    merge_prop.merge = true;
    let props = vec![plain(ColumnType::Int), merge_prop];
    assert_eq!(
        validate_properties(&attrs, &props),
        Err(AttributeConflict::MissingKeyField)
    );
}

#[test]
fn rejects_merging_container_without_merge_field() {
    let attrs = ContainerAttributes { partition: None, merge: Some(MergeKind::Hash) };
    let mut key_prop = plain(ColumnType::Int);
    key_prop.key = true;
    let props = vec![key_prop, plain(ColumnType::Int)];
    assert_eq!(
        validate_properties(&attrs, &props),
        Err(AttributeConflict::MissingMergeField)
    );
}

#[test]
fn rejects_key_outside_merging_container() {
    let attrs = ContainerAttributes { partition: None, merge: None };
    let mut key_prop = plain(ColumnType::Int);
    key_prop.key = true;
    let props = vec![plain(ColumnType::Int), key_prop];
    assert_eq!(
        validate_properties(&attrs, &props),
        Err(AttributeConflict::KeyOutsideMergingContainer { prop: 1 })
    );
}

#[test]
fn rejects_merge_outside_merging_container() {
    let attrs = ContainerAttributes { partition: None, merge: None };
    let mut merge_prop = plain(ColumnType::Boolean);
    merge_prop.merge = true;
    let props = vec![merge_prop];
    assert_eq!(
        validate_properties(&attrs, &props),
        Err(AttributeConflict::MergeOutsideMergingContainer { prop: 0 })
    );
}

#[test]
fn rejects_key_and_merge_on_one_property() {
    let attrs = ContainerAttributes { partition: None, merge: Some(MergeKind::Group) };
    let mut both = plain(ColumnType::Int);
    both.key = true;
    both.merge = true;
    let props = vec![both];
    assert_eq!(
        validate_properties(&attrs, &props),
        Err(AttributeConflict::KeyAndMergeOnOneProperty { prop: 0 })
    );
}

#[test]
fn validates_nested_containers_too() {
    let bad_nested = Container {
        attrs: ContainerAttributes { partition: None, merge: None },
        props: vec![Property {
            ty: ColumnType::Int,
            split: None,
            stride: Some(3),
            key: false,
            merge: false,
        }],
    };
    let c = Container {
        attrs: ContainerAttributes { partition: Some(PartitionKind::Split), merge: None },
        props: vec![Property {
            ty: ColumnType::Int,
            split: Some(Box::new(bad_nested)),
            stride: None,
            key: false,
            merge: false,
        }],
    };
    assert_eq!(
        validate_container_tree(&c),
        Err(AttributeConflict::StrideOutsideExactContainer { prop: 0 })
    );
}
