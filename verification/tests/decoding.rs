use row_decode::descriptor::{
    ColumnType, ColumnValue, Container, ContainerAttributes, DecodeError, FieldValue,
    PartitionKind, Property, Record,
};
use row_decode::partition::{decode, encode_record};

fn plain(ty: ColumnType) -> Property {
    Property { ty, split: None, stride: None, key: false, merge: false }
}

fn int_col(v: i64) -> ColumnValue {
    ColumnValue::Int(v)
}

fn field_int(f: &FieldValue) -> i64 {
    match f {
        FieldValue::Column(ColumnValue::Int(v)) => *v,
        _ => panic!("expected an integer column value"),
    }
}

fn two_int_container() -> Container {
    Container {
        attrs: ContainerAttributes { partition: None, merge: None },
        props: vec![plain(ColumnType::Int), plain(ColumnType::Int)],
    }
}

#[test]
fn plain_container_decodes_exact_count() {
    let c = two_int_container();
    let rec = decode(&vec![int_col(7), int_col(8)], &c).unwrap();
    assert_eq!(rec.fields.len(), 2);
    assert_eq!(field_int(&rec.fields[0]), 7);
    assert_eq!(field_int(&rec.fields[1]), 8);
}

#[test]
fn plain_container_rejects_long_row() {
    let c = two_int_container();
    let r = decode(&vec![int_col(1), int_col(2), int_col(3)], &c);
    assert_eq!(r.err(), Some(DecodeError::RowTooLong));
}

#[test]
fn plain_container_rejects_short_row() {
    let c = two_int_container();
    let r = decode(&vec![int_col(1)], &c);
    assert_eq!(r.err(), Some(DecodeError::RowTooShort));
}

#[test]
fn long_row_is_rejected_before_any_conversion() {
    // The extra column comes with a conversion error in front of it; the
    // count is still checked first.
    let c = two_int_container();
    let r = decode(
        &vec![ColumnValue::Boolean(true), int_col(2), int_col(3)],
        &c,
    );
    assert_eq!(r.err(), Some(DecodeError::RowTooLong));
}

#[test]
fn mismatched_column_type_is_rejected() {
    let c = two_int_container();
    let r = decode(&vec![int_col(1), ColumnValue::Boolean(false)], &c);
    assert_eq!(r.err(), Some(DecodeError::TypeMismatch));
}

fn stride_container(s: usize) -> Container {
    Container {
        attrs: ContainerAttributes { partition: Some(PartitionKind::Exact), merge: None },
        props: vec![Property {
            ty: ColumnType::Int,
            split: None,
            stride: Some(s),
            key: false,
            merge: false,
        }],
    }
}

#[test]
fn exact_container_carves_elements_by_stride() {
    let c = stride_container(2);
    let rec = decode(
        &vec![int_col(1), int_col(2), int_col(3), int_col(4), int_col(5), int_col(6)],
        &c,
    )
    .unwrap();
    assert_eq!(rec.fields.len(), 1);
    match &rec.fields[0] {
        FieldValue::Elements(elems) => {
            assert_eq!(elems.len(), 3);
            assert_eq!(elems[0], vec![int_col(1), int_col(2)]);
            assert_eq!(elems[1], vec![int_col(3), int_col(4)]);
            assert_eq!(elems[2], vec![int_col(5), int_col(6)]);
        },
        _ => panic!("expected a sequence field"),
    }
}

#[test]
fn exact_container_accepts_empty_row_as_zero_elements() {
    let c = stride_container(2);
    let rec = decode(&vec![], &c).unwrap();
    match &rec.fields[0] {
        FieldValue::Elements(elems) => assert_eq!(elems.len(), 0),
        _ => panic!("expected a sequence field"),
    }
}

#[test]
fn exact_container_rejects_uneven_row() {
    let c = stride_container(2);
    let r = decode(&vec![int_col(1), int_col(2), int_col(3)], &c);
    assert_eq!(r.err(), Some(DecodeError::StrideMismatch));
}

fn split_container() -> Container {
    let nested = Container {
        attrs: ContainerAttributes { partition: None, merge: None },
        props: vec![plain(ColumnType::Int), plain(ColumnType::Int)],
    };
    Container {
        attrs: ContainerAttributes { partition: Some(PartitionKind::Split), merge: None },
        props: vec![
            Property {
                ty: ColumnType::Int,
                split: Some(Box::new(nested)),
                stride: None,
                key: false,
                merge: false,
            },
            plain(ColumnType::Int),
        ],
    }
}

#[test]
fn split_container_hands_prefix_to_nested_container() {
    let c = split_container();
    let rec = decode(&vec![int_col(10), int_col(11), int_col(12)], &c).unwrap();
    assert_eq!(rec.fields.len(), 2);
    match &rec.fields[0] {
        FieldValue::Nested(sub) => {
            assert_eq!(sub.fields.len(), 2);
            assert_eq!(field_int(&sub.fields[0]), 10);
            assert_eq!(field_int(&sub.fields[1]), 11);
        },
        _ => panic!("expected a nested record"),
    }
    assert_eq!(field_int(&rec.fields[1]), 12);
}

#[test]
fn split_container_rejects_leftover_columns() {
    let c = split_container();
    let r = decode(&vec![int_col(1), int_col(2), int_col(3), int_col(4)], &c);
    assert_eq!(r.err(), Some(DecodeError::RowTooLong));
}

fn assert_round_trips(row: Vec<ColumnValue>, c: &Container) {
    let rec: Record = decode(&row, c).unwrap();
    assert_eq!(encode_record(&rec), row);
}

#[test]
fn decoded_rows_encode_back_to_themselves() {
    assert_round_trips(vec![int_col(5), int_col(6)], &two_int_container());
    assert_round_trips(
        vec![int_col(1), int_col(2), int_col(3), int_col(4)],
        &stride_container(2),
    );
    assert_round_trips(vec![int_col(7), int_col(8), int_col(9)], &split_container());
}
