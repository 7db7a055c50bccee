//! The descriptor model: passive data describing how a container's properties
//! claim the columns of a row, and the value model that decoding produces.

use vstd::prelude::*;

verus! {

/// How a container's properties divide up one row's columns. A container
/// without a partition kind gives every property exactly one column.
#[derive(Clone, Copy, PartialEq, Eq, Structural, Debug)]
pub enum PartitionKind {
    /// Properties claim variable-width contiguous ranges; a property marked
    /// `split` hands its range to a nested container.
    Split,
    /// The container holds a homogeneous fixed-stride sequence.
    Exact,
}

/// How several rows collapse into one output value. A container without a
/// merge kind decodes one record per row.
#[derive(Clone, Copy, PartialEq, Eq, Structural, Debug)]
pub enum MergeKind {
    /// Rows fold in encounter order into an ordered sequence of groups; only
    /// the immediately preceding group is considered for accumulation.
    Group,
    /// Rows fold into a key-to-accumulator mapping irrespective of order.
    Hash,
}

/// A container's overall partition and merge kinds.
#[derive(Clone, Copy, PartialEq, Eq, Structural, Debug)]
pub struct ContainerAttributes {
    pub partition: Option<PartitionKind>,
    pub merge: Option<MergeKind>,
}

/// The type a single column decodes to.
#[derive(Clone, Copy, PartialEq, Eq, Structural, Debug)]
pub enum ColumnType {
    Int,
    Boolean,
}

/// An atomic typed value at a fixed position within a row.
#[derive(Clone, Copy, PartialEq, Eq, Structural, Debug)]
pub enum ColumnValue {
    Int(i64),
    Boolean(bool),
}

/// Whether a stored column value has the representation a field of type `ty`
/// requires.
pub open spec fn column_matches(ty: ColumnType, v: ColumnValue) -> bool {
    match ty {
        ColumnType::Int => v is Int,
        ColumnType::Boolean => v is Boolean,
    }
}

/// One declared field of a container: its column type and its optional
/// attributes. The attributes are mutually constrained; the validator checks
/// the constraints before any decoding.
pub struct Property {
    /// The type each column of this property decodes to.
    pub ty: ColumnType,
    /// Present when the field is itself a nested container consuming a
    /// sub-range of the row; only legal under partition kind `Split`.
    pub split: Option<Box<Container>>,
    /// Fixed column-width of one element of a sequence field; only legal
    /// under partition kind `Exact`.
    pub stride: Option<usize>,
    /// The field is part of the equality key used to group rows; only legal
    /// under a merge kind.
    pub key: bool,
    /// The field is accumulated across rows sharing a key; only legal under
    /// a merge kind.
    pub merge: bool,
}

/// A container descriptor: its attributes and its ordered property list.
pub struct Container {
    pub attrs: ContainerAttributes,
    pub props: Vec<Property>,
}

/// A diagnostic produced by the validator: an attribute used where it is not
/// permitted, or a required attribute missing. `prop` is the zero-based index
/// of the offending property in the container's declared order.
#[derive(Clone, Copy, PartialEq, Eq, Structural, Debug)]
pub enum AttributeConflict {
    /// A property carries `split` but the container's partition kind is not
    /// `Split`.
    SplitOutsideSplitContainer { prop: usize },
    /// A property carries `stride` but the container's partition kind is not
    /// `Exact`.
    StrideOutsideExactContainer { prop: usize },
    /// The container declares a merge kind but no property is a key field.
    MissingKeyField,
    /// The container declares a merge kind but no property is a merge field.
    MissingMergeField,
    /// A property carries `key` but the container declares no merge kind.
    KeyOutsideMergingContainer { prop: usize },
    /// A property carries `merge` but the container declares no merge kind.
    MergeOutsideMergingContainer { prop: usize },
    /// One property carries both `key` and `merge`.
    KeyAndMergeOnOneProperty { prop: usize },
}

/// A failure while decoding one row (or merging a row stream).
#[derive(Clone, Copy, PartialEq, Eq, Structural, Debug)]
pub enum DecodeError {
    /// A property needed more columns than remained in the row.
    RowTooShort,
    /// Columns remained unconsumed at container end.
    RowTooLong,
    /// The columns left for a fixed-stride sequence do not divide evenly by
    /// the declared stride, or the declared stride is zero.
    StrideMismatch,
    /// A column's stored representation cannot convert to the declared type.
    TypeMismatch,
    /// Under a merge, a non-key, non-merge field differed across rows that
    /// share a key.
    InconsistentGroupFields,
}

/// Invariant: only a container whose partition kind is `Split` may contain
/// properties marked `split`.
pub open spec fn split_placement_ok(attrs: ContainerAttributes, props: Seq<Property>) -> bool {
    attrs.partition != Some(PartitionKind::Split)
        ==> forall|i: int| 0 <= i < props.len() ==> (#[trigger] props[i]).split is None
}

/// Invariant: only a container whose partition kind is `Exact` may contain
/// properties carrying `stride`.
pub open spec fn stride_placement_ok(attrs: ContainerAttributes, props: Seq<Property>) -> bool {
    attrs.partition != Some(PartitionKind::Exact)
        ==> forall|i: int| 0 <= i < props.len() ==> (#[trigger] props[i]).stride is None
}

/// Some property is marked as part of the grouping key.
pub open spec fn has_key_prop(props: Seq<Property>) -> bool {
    exists|i: int| 0 <= i < props.len() && (#[trigger] props[i]).key
}

/// Some property is marked as accumulated across rows sharing a key.
pub open spec fn has_merge_prop(props: Seq<Property>) -> bool {
    exists|i: int| 0 <= i < props.len() && (#[trigger] props[i]).merge
}

/// Invariant: a merging container has at least one key and one merge field; a
/// non-merging container has neither.
pub open spec fn merge_shape_ok(attrs: ContainerAttributes, props: Seq<Property>) -> bool {
    if attrs.merge is Some {
        has_key_prop(props) && has_merge_prop(props)
    } else {
        !has_key_prop(props) && !has_merge_prop(props)
    }
}

/// Invariant: no single property carries both `key` and `merge`.
pub open spec fn key_merge_exclusive(props: Seq<Property>) -> bool {
    forall|i: int| 0 <= i < props.len() ==> !((#[trigger] props[i]).key && props[i].merge)
}

/// All five invariants of one container, nested containers not considered.
pub open spec fn container_ok(attrs: ContainerAttributes, props: Seq<Property>) -> bool {
    &&& split_placement_ok(attrs, props)
    &&& stride_placement_ok(attrs, props)
    &&& merge_shape_ok(attrs, props)
    &&& key_merge_exclusive(props)
}

/// The decoded value of one property.
pub enum FieldValue {
    /// A plain property's single decoded column.
    Column(ColumnValue),
    /// A `split` property's nested record.
    Nested(Box<Record>),
    /// A `stride` property's sequence of elements, each element the fixed
    /// number of columns wide that the stride declares.
    Elements(Vec<Vec<ColumnValue>>),
}

/// One decoded container instance: the values of its properties in declared
/// order.
pub struct Record {
    pub fields: Vec<FieldValue>,
}

/// The mathematical model of a decoded field value: a nested record is
/// modelled directly by the sequence of its field models.
pub enum SpecFieldValue {
    Column(ColumnValue),
    Nested(Seq<SpecFieldValue>),
    Elements(Seq<Seq<ColumnValue>>),
}

/// The model of one field value.
pub open spec fn view_of_field(f: FieldValue) -> SpecFieldValue
    decreases f,
{
    match f {
        FieldValue::Column(v) => SpecFieldValue::Column(v),
        FieldValue::Nested(r) => SpecFieldValue::Nested(view_of_fields((*r).fields@)),
        FieldValue::Elements(e) => SpecFieldValue::Elements(
            Seq::new(e@.len(), |i: int| e@[i]@),
        ),
    }
}

/// The model of a sequence of field values, elementwise.
pub open spec fn view_of_fields(fields: Seq<FieldValue>) -> Seq<SpecFieldValue>
    decreases fields,
{
    if fields.len() == 0 {
        Seq::empty()
    } else {
        seq![view_of_field(fields[0])] + view_of_fields(fields.drop_first())
    }
}

impl View for FieldValue {
    type V = SpecFieldValue;

    open spec fn view(&self) -> SpecFieldValue {
        view_of_field(*self)
    }
}

impl View for Record {
    type V = Seq<SpecFieldValue>;

    open spec fn view(&self) -> Seq<SpecFieldValue> {
        view_of_fields(self.fields@)
    }
}

/// `view_of_fields` is the elementwise image of `view_of_field`.
pub proof fn lemma_view_of_fields(fields: Seq<FieldValue>)
    ensures
        view_of_fields(fields).len() == fields.len(),
        forall|i: int|
            0 <= i < fields.len() ==> view_of_fields(fields)[i] == view_of_field(
                #[trigger] fields[i],
            ),
    decreases fields,
{
    if fields.len() > 0 {
        lemma_view_of_fields(fields.drop_first());
        assert forall|i: int|
            0 <= i < fields.len() implies view_of_fields(fields)[i] == view_of_field(
            #[trigger] fields[i],
        ) by {
            if i > 0 {
                assert(fields.drop_first()[i - 1] == fields[i]);
            }
        }
    }
}

/// The model of a concatenation of field sequences is the concatenation of
/// their models.
pub proof fn lemma_view_of_fields_concat(a: Seq<FieldValue>, b: Seq<FieldValue>)
    ensures
        view_of_fields(a + b) == view_of_fields(a) + view_of_fields(b),
{
    lemma_view_of_fields(a);
    lemma_view_of_fields(b);
    lemma_view_of_fields(a + b);
    assert forall|i: int|
        0 <= i < (a + b).len() implies view_of_fields(a + b)[i] == (view_of_fields(a)
        + view_of_fields(b))[i] by {
        if i < a.len() {
            assert((a + b)[i] == a[i]);
        } else {
            assert((a + b)[i] == b[i - a.len()]);
        }
    }
    assert(view_of_fields(a + b) =~= view_of_fields(a) + view_of_fields(b));
}

/// The invariants of a container and of every nested container reached
/// through a `split` property.
pub open spec fn container_tree_ok(c: Container) -> bool
    decreases c,
{
    &&& container_ok(c.attrs, c.props@)
    &&& forall|i: int|
        0 <= i < c.props@.len() ==> ((#[trigger] c.props@[i]).split matches Some(n)
            ==> container_tree_ok(*n))
}

} // verus!
