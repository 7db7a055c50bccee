use row_decode::descriptor::{
    ColumnType, ColumnValue, Container, ContainerAttributes, DecodeError, FieldValue, MergeKind,
    Property,
};
use row_decode::merge::{merge_rows, merge_step, MergeGroup};

fn int_col(v: i64) -> ColumnValue {
    ColumnValue::Int(v)
}

fn key_prop() -> Property {
    Property { ty: ColumnType::Int, split: None, stride: None, key: true, merge: false }
}

fn merge_prop() -> Property {
    Property { ty: ColumnType::Int, split: None, stride: None, key: false, merge: true }
}

fn fixed_prop() -> Property {
    Property { ty: ColumnType::Int, split: None, stride: None, key: false, merge: false }
}

/// A container of one key field followed by one merge field.
fn key_merge_container(kind: MergeKind) -> Container {
    Container {
        attrs: ContainerAttributes { partition: None, merge: Some(kind) },
        props: vec![key_prop(), merge_prop()],
    }
}

fn group_key(g: &MergeGroup) -> i64 {
    assert_eq!(g.key.len(), 1);
    match g.key[0] {
        ColumnValue::Int(v) => v,
        _ => panic!("expected an integer key"),
    }
}

fn merged_ints(g: &MergeGroup) -> Vec<i64> {
    g.merged
        .iter()
        .map(|f| match f {
            FieldValue::Column(ColumnValue::Int(v)) => *v,
            _ => panic!("expected integer merge values"),
        })
        .collect()
}

#[test]
fn group_merge_accumulates_consecutive_equal_keys() {
    let c = key_merge_container(MergeKind::Group);
    let rows = vec![
        vec![int_col(1), int_col(10)],
        vec![int_col(1), int_col(11)],
        vec![int_col(2), int_col(12)],
    ];
    let groups = merge_rows(&rows, &c).unwrap();
    assert_eq!(groups.len(), 2);
    assert_eq!(group_key(&groups[0]), 1);
    assert_eq!(merged_ints(&groups[0]), vec![10, 11]);
    assert_eq!(group_key(&groups[1]), 2);
    assert_eq!(merged_ints(&groups[1]), vec![12]);
}

#[test]
fn group_merge_keeps_first_seen_order() {
    let c = key_merge_container(MergeKind::Group);
    let rows = vec![
        vec![int_col(2), int_col(12)],
        vec![int_col(1), int_col(10)],
        vec![int_col(1), int_col(11)],
    ];
    let groups = merge_rows(&rows, &c).unwrap();
    assert_eq!(groups.len(), 2);
    assert_eq!(group_key(&groups[0]), 2);
    assert_eq!(merged_ints(&groups[0]), vec![12]);
    assert_eq!(group_key(&groups[1]), 1);
    assert_eq!(merged_ints(&groups[1]), vec![10, 11]);
}

#[test]
fn group_merge_does_not_rejoin_non_contiguous_keys() {
    // The second key 2 arrives after a different key; under `Group` it
    // starts a new group rather than rejoining the earlier one.
    let c = key_merge_container(MergeKind::Group);
    let rows = vec![
        vec![int_col(2), int_col(12)],
        vec![int_col(1), int_col(10)],
        vec![int_col(2), int_col(13)],
    ];
    let groups = merge_rows(&rows, &c).unwrap();
    assert_eq!(groups.len(), 3);
    assert_eq!(group_key(&groups[0]), 2);
    assert_eq!(merged_ints(&groups[0]), vec![12]);
    assert_eq!(group_key(&groups[1]), 1);
    assert_eq!(merged_ints(&groups[1]), vec![10]);
    assert_eq!(group_key(&groups[2]), 2);
    assert_eq!(merged_ints(&groups[2]), vec![13]);
}

#[test]
fn hash_merge_joins_non_contiguous_keys() {
    let c = key_merge_container(MergeKind::Hash);
    let rows = vec![
        vec![int_col(2), int_col(12)],
        vec![int_col(1), int_col(10)],
        vec![int_col(1), int_col(11)],
    ];
    let groups = merge_rows(&rows, &c).unwrap();
    assert_eq!(groups.len(), 2);
    // Entries are created at the first occurrence of each key and keys are
    // unique; accumulation is independent of where the rows stand.
    assert_eq!(group_key(&groups[0]), 2);
    assert_eq!(merged_ints(&groups[0]), vec![12]);
    assert_eq!(group_key(&groups[1]), 1);
    assert_eq!(merged_ints(&groups[1]), vec![10, 11]);
}

#[test]
fn hash_merge_rejoins_separated_keys() {
    let c = key_merge_container(MergeKind::Hash);
    let rows = vec![
        vec![int_col(2), int_col(12)],
        vec![int_col(1), int_col(10)],
        vec![int_col(2), int_col(13)],
    ];
    let groups = merge_rows(&rows, &c).unwrap();
    assert_eq!(groups.len(), 2);
    assert_eq!(group_key(&groups[0]), 2);
    assert_eq!(merged_ints(&groups[0]), vec![12, 13]);
    assert_eq!(group_key(&groups[1]), 1);
    assert_eq!(merged_ints(&groups[1]), vec![10]);
}

#[test]
fn merge_of_no_rows_gives_no_groups() {
    let c = key_merge_container(MergeKind::Group);
    let groups = merge_rows(&vec![], &c).unwrap();
    assert_eq!(groups.len(), 0);
}

#[test]
fn merge_rejects_inconsistent_fixed_fields() {
    // key, merge, and one fixed field; the fixed field differs between two
    // rows of the same group.
    let c = Container {
        attrs: ContainerAttributes { partition: None, merge: Some(MergeKind::Group) },
        props: vec![key_prop(), merge_prop(), fixed_prop()],
    };
    let rows = vec![
        vec![int_col(1), int_col(10), int_col(100)],
        vec![int_col(1), int_col(11), int_col(200)],
    ];
    let r = merge_rows(&rows, &c);
    assert_eq!(r.err(), Some(DecodeError::InconsistentGroupFields));
}

#[test]
fn merge_keeps_fixed_fields_from_first_row() {
    let c = Container {
        attrs: ContainerAttributes { partition: None, merge: Some(MergeKind::Group) },
        props: vec![key_prop(), merge_prop(), fixed_prop()],
    };
    let rows = vec![
        vec![int_col(1), int_col(10), int_col(100)],
        vec![int_col(1), int_col(11), int_col(100)],
    ];
    let groups = merge_rows(&rows, &c).unwrap();
    assert_eq!(groups.len(), 1);
    match &groups[0].first.fields[2] {
        FieldValue::Column(ColumnValue::Int(v)) => assert_eq!(*v, 100),
        _ => panic!("expected the fixed field of the first row"),
    }
    assert_eq!(merged_ints(&groups[0]), vec![10, 11]);
}

#[test]
fn merge_step_drives_a_row_stream_one_row_at_a_time() {
    // The pull protocol of a streaming driver: groups are owned between
    // calls, each fetched row is fed on its own.
    let c = key_merge_container(MergeKind::Group);
    let mut groups: Vec<MergeGroup> = Vec::new();
    assert!(merge_step(&mut groups, &vec![int_col(1), int_col(10)], &c).is_ok());
    assert!(merge_step(&mut groups, &vec![int_col(1), int_col(11)], &c).is_ok());
    assert!(merge_step(&mut groups, &vec![int_col(2), int_col(12)], &c).is_ok());
    assert_eq!(groups.len(), 2);
    assert_eq!(merged_ints(&groups[0]), vec![10, 11]);
    assert_eq!(merged_ints(&groups[1]), vec![12]);
    // A row that does not decode leaves the groups as they were.
    let before = groups.len();
    assert_eq!(
        merge_step(&mut groups, &vec![int_col(3)], &c).err(),
        Some(DecodeError::RowTooShort)
    );
    assert_eq!(groups.len(), before);
}

#[test]
fn merge_fails_on_first_undecodable_row() {
    let c = key_merge_container(MergeKind::Group);
    let rows = vec![
        vec![int_col(1), int_col(10)],
        vec![int_col(1)],
    ];
    let r = merge_rows(&rows, &c);
    assert_eq!(r.err(), Some(DecodeError::RowTooShort));
}
