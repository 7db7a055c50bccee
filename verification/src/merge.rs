//! The merger: folds an ordered stream of rows into keyed groups. Each row
//! is decoded by the partitioner under the container's layout rules (key and
//! merge fields are ordinary properties for layout); the values of the
//! properties marked `key` identify the row's group and the values of the
//! properties marked `merge` are accumulated in the group, in row order.
//!
//! Under merge kind `Group` only the immediately preceding group is
//! considered, so equal keys separated by a different key start a new group;
//! under merge kind `Hash` the group is looked up among all groups seen, so
//! the first occurrence of a key creates its single entry. The `Hash`
//! output is a key-to-accumulator mapping represented as a sequence of
//! groups in first-seen order whose keys are pairwise distinct. Key fields
//! and the remaining fixed fields are compared by the columns they
//! re-encode to; a row whose fixed fields differ from its group's is
//! rejected.

use vstd::prelude::*;
use crate::descriptor::{
    ColumnValue, Container, DecodeError, FieldValue, MergeKind, Property, Record, SpecFieldValue,
    container_tree_ok, lemma_view_of_fields, lemma_view_of_fields_concat, view_of_field,
    view_of_fields,
};
use crate::partition::{
    decode, encode_field, lemma_decode_props_field_count, spec_decode, spec_encode_field,
};

verus! {

broadcast use vstd::std_specs::vec::group_vec_axioms;

/// One finished (or in-progress) merge group.
pub struct MergeGroup {
    /// The concatenated column encodings of the key fields, in declaration
    /// order.
    pub key: Vec<ColumnValue>,
    /// The decoded record of the first row of the group; the group's fixed
    /// fields are read from it.
    pub first: Record,
    /// The accumulated values of the merge fields, row by row in encounter
    /// order.
    pub merged: Vec<FieldValue>,
}

/// The mathematical model of one merge group.
pub struct SpecGroup {
    pub key: Seq<ColumnValue>,
    pub first: Seq<SpecFieldValue>,
    pub merged: Seq<SpecFieldValue>,
}

impl View for MergeGroup {
    type V = SpecGroup;

    open spec fn view(&self) -> SpecGroup {
        SpecGroup {
            key: self.key@,
            first: view_of_fields(self.first.fields@),
            merged: view_of_fields(self.merged@),
        }
    }
}

/// The models of a sequence of groups, elementwise.
pub open spec fn view_of_groups(groups: Seq<MergeGroup>) -> Seq<SpecGroup> {
    Seq::new(groups.len(), |i: int| groups[i]@)
}

/// The models of a sequence of rows, elementwise.
pub open spec fn view_of_rows(rows: Seq<Vec<ColumnValue>>) -> Seq<Seq<ColumnValue>> {
    Seq::new(rows.len(), |i: int| rows[i]@)
}

/// The key of a decoded record: the concatenated column encodings of the
/// fields whose property is marked `key`, in declaration order.
pub open spec fn spec_key_of(fields: Seq<SpecFieldValue>, props: Seq<Property>) -> Seq<ColumnValue>
    decreases props,
{
    if props.len() == 0 || fields.len() == 0 {
        Seq::empty()
    } else {
        (if props[0].key {
            spec_encode_field(fields[0])
        } else {
            Seq::empty()
        }) + spec_key_of(fields.drop_first(), props.drop_first())
    }
}

/// The merge contribution of one decoded record: the values of the fields
/// whose property is marked `merge`, in declaration order.
pub open spec fn spec_merge_values_of(
    fields: Seq<SpecFieldValue>,
    props: Seq<Property>,
) -> Seq<SpecFieldValue>
    decreases props,
{
    if props.len() == 0 || fields.len() == 0 {
        Seq::empty()
    } else {
        (if props[0].merge {
            seq![fields[0]]
        } else {
            Seq::empty()
        }) + spec_merge_values_of(fields.drop_first(), props.drop_first())
    }
}

/// The fixed part of a decoded record: the concatenated column encodings of
/// the fields that are neither key nor merge fields, in declaration order.
pub open spec fn spec_fixed_of(fields: Seq<SpecFieldValue>, props: Seq<Property>) -> Seq<
    ColumnValue,
>
    decreases props,
{
    if props.len() == 0 || fields.len() == 0 {
        Seq::empty()
    } else {
        (if !props[0].key && !props[0].merge {
            spec_encode_field(fields[0])
        } else {
            Seq::empty()
        }) + spec_fixed_of(fields.drop_first(), props.drop_first())
    }
}

/// The index of the first group carrying `key`, or -1 when no group does.
pub open spec fn spec_group_index(groups: Seq<SpecGroup>, key: Seq<ColumnValue>) -> int
    decreases groups.len(),
{
    if groups.len() == 0 {
        -1
    } else if groups[0].key == key {
        0
    } else {
        let r = spec_group_index(groups.drop_first(), key);
        if r == -1 {
            -1
        } else {
            1 + r
        }
    }
}

/// The first group index is indeed the first carrying `key`.
pub proof fn lemma_group_index(groups: Seq<SpecGroup>, key: Seq<ColumnValue>)
    ensures
        spec_group_index(groups, key) == -1 ==> forall|k: int|
            0 <= k < groups.len() ==> (#[trigger] groups[k]).key != key,
        spec_group_index(groups, key) != -1 ==> {
            let r = spec_group_index(groups, key);
            &&& 0 <= r < groups.len()
            &&& groups[r].key == key
            &&& forall|k: int| 0 <= k < r ==> (#[trigger] groups[k]).key != key
        },
    decreases groups.len(),
{
    if groups.len() > 0 && groups[0].key != key {
        let rest = groups.drop_first();
        lemma_group_index(rest, key);
        if spec_group_index(rest, key) == -1 {
            assert forall|k: int| 0 <= k < groups.len() implies (#[trigger] groups[k]).key != key by {
                if k > 0 {
                    assert(rest[k - 1] == groups[k]);
                    assert(rest[k - 1].key != key);
                }
            }
        } else {
            let r = spec_group_index(rest, key);
            assert(groups[1 + r] == rest[r]);
            assert forall|k: int| 0 <= k < 1 + r implies (#[trigger] groups[k]).key != key by {
                if k > 0 {
                    assert(rest[k - 1] == groups[k]);
                    assert(rest[k - 1].key != key);
                }
            }
        }
    }
}

/// The group a row with key `key` joins, if any: under `Group` only the
/// last group and only when its key matches; under `Hash` the unique group
/// carrying the key, wherever it stands.
pub open spec fn spec_target_index(
    groups: Seq<SpecGroup>,
    key: Seq<ColumnValue>,
    kind: MergeKind,
) -> int {
    match kind {
        MergeKind::Group => if groups.len() > 0 && groups.last().key == key {
            groups.len() - 1
        } else {
            -1
        },
        MergeKind::Hash => spec_group_index(groups, key),
    }
}

/// One step of the fold: the row is decoded, its key computed, and its
/// merge values appended to the group the key joins; when none does, a
/// fresh group is appended. A row whose fixed fields differ from its
/// group's first row is rejected.
pub open spec fn spec_merge_step(
    groups: Seq<SpecGroup>,
    cols: Seq<ColumnValue>,
    c: Container,
    kind: MergeKind,
) -> Result<Seq<SpecGroup>, DecodeError> {
    match spec_decode(cols, c) {
        Err(e) => Err(e),
        Ok(fields) => {
            let key = spec_key_of(fields, c.props@);
            let m = spec_merge_values_of(fields, c.props@);
            let idx = spec_target_index(groups, key, kind);
            if idx == -1 {
                Ok(groups.push(SpecGroup { key, first: fields, merged: m }))
            } else if spec_fixed_of(fields, c.props@) == spec_fixed_of(
                groups[idx].first,
                c.props@,
            ) {
                Ok(
                    groups.update(
                        idx,
                        SpecGroup {
                            key: groups[idx].key,
                            first: groups[idx].first,
                            merged: groups[idx].merged + m,
                        },
                    ),
                )
            } else {
                Err(DecodeError::InconsistentGroupFields)
            }
        },
    }
}

/// Folds the rows in encounter order into groups, one `spec_merge_step` per
/// row; a row that fails to decode fails the whole merge.
pub open spec fn spec_merge_rows(
    rows: Seq<Seq<ColumnValue>>,
    c: Container,
    kind: MergeKind,
) -> Result<Seq<SpecGroup>, DecodeError>
    decreases rows.len(),
{
    if rows.len() == 0 {
        Ok(Seq::empty())
    } else {
        match spec_merge_rows(rows.drop_last(), c, kind) {
            Err(e) => Err(e),
            Ok(groups) => spec_merge_step(groups, rows.last(), c, kind),
        }
    }
}

/// A merge that has already failed on a prefix of the rows fails on the
/// whole stream with the same error.
pub proof fn lemma_merge_error_persists(
    rows: Seq<Seq<ColumnValue>>,
    k: int,
    c: Container,
    kind: MergeKind,
)
    requires
        0 <= k <= rows.len(),
        spec_merge_rows(rows.take(k), c, kind) is Err,
    ensures
        spec_merge_rows(rows, c, kind) == spec_merge_rows(rows.take(k), c, kind),
    decreases rows.len() - k,
{
    if k < rows.len() {
        assert(rows.take(k + 1).drop_last() =~= rows.take(k));
        assert(spec_merge_rows(rows.take(k + 1), c, kind) == spec_merge_rows(
            rows.take(k),
            c,
            kind,
        ));
        lemma_merge_error_persists(rows, k + 1, c, kind);
    } else {
        assert(rows.take(k) =~= rows);
    }
}

/// Whether two column sequences hold the same values in the same order.
pub fn columns_equal(a: &Vec<ColumnValue>, b: &Vec<ColumnValue>) -> (r: bool)
    ensures
        r == (a@ == b@),
{
    if a.len() != b.len() {
        return false;
    }
    let mut i: usize = 0;
    while i < a.len()
        invariant
            i <= a@.len(),
            a@.len() == b@.len(),
            forall|k: int| 0 <= k < i ==> a@[k] == b@[k],
        decreases a@.len() - i,
    {
        if a[i] != b[i] {
            return false;
        }
        i += 1;
    }
    proof {
        assert(a@ =~= b@);
    }
    true
}

/// A fresh copy of a sequence of columns.
fn copy_columns(v: &Vec<ColumnValue>) -> (r: Vec<ColumnValue>)
    ensures
        r@ == v@,
{
    let mut out: Vec<ColumnValue> = Vec::new();
    let mut i: usize = 0;
    while i < v.len()
        invariant
            i <= v@.len(),
            out@ == v@.take(i as int),
        decreases v@.len() - i,
    {
        out.push(v[i]);
        proof {
            assert(out@ =~= v@.take(i + 1));
        }
        i += 1;
    }
    proof {
        assert(v@.take(v@.len() as int) =~= v@);
    }
    out
}

/// A fresh deep copy of one decoded field value, with the same model.
#[verifier::loop_isolation(false)]
pub fn copy_field(f: &FieldValue) -> (r: FieldValue)
    ensures
        view_of_field(r) == view_of_field(*f),
    decreases *f,
{
    match f {
        FieldValue::Column(v) => FieldValue::Column(*v),
        FieldValue::Nested(rec) => {
            let mut fields: Vec<FieldValue> = Vec::new();
            let mut i: usize = 0;
            while i < rec.fields.len()
                invariant
                    i <= rec.fields@.len(),
                    fields@.len() == i,
                    forall|k: int|
                        0 <= k < i ==> view_of_field(#[trigger] fields@[k]) == view_of_field(
                            rec.fields@[k],
                        ),
                decreases rec.fields@.len() - i,
            {
                let cf = copy_field(&rec.fields[i]);
                fields.push(cf);
                i += 1;
            }
            proof {
                lemma_view_of_fields(fields@);
                lemma_view_of_fields(rec.fields@);
                assert forall|k: int|
                    0 <= k < fields@.len() implies view_of_fields(fields@)[k] == view_of_fields(
                    rec.fields@,
                )[k] by {
                    assert(view_of_fields(fields@)[k] == view_of_field(fields@[k]));
                    assert(view_of_fields(rec.fields@)[k] == view_of_field(rec.fields@[k]));
                }
                assert(view_of_fields(fields@) =~= view_of_fields(rec.fields@));
            }
            FieldValue::Nested(Box::new(Record { fields }))
        },
        FieldValue::Elements(elems) => {
            let mut out: Vec<Vec<ColumnValue>> = Vec::new();
            let mut i: usize = 0;
            while i < elems.len()
                invariant
                    i <= elems@.len(),
                    out@.len() == i,
                    forall|k: int| 0 <= k < i ==> (#[trigger] out@[k])@ == elems@[k]@,
                decreases elems@.len() - i,
            {
                let ce = copy_columns(&elems[i]);
                out.push(ce);
                i += 1;
            }
            proof {
                assert(Seq::new(out@.len(), |k: int| out@[k]@) =~= Seq::new(
                    elems@.len(),
                    |k: int| elems@[k]@,
                ));
            }
            FieldValue::Elements(out)
        },
    }
}

/// The concatenated column encodings of the record's key fields, in
/// declaration order.
pub fn key_of_record(rec: &Record, props: &Vec<Property>) -> (r: Vec<ColumnValue>)
    requires
        rec.fields@.len() == props@.len(),
    ensures
        r@ == spec_key_of(rec@, props@),
{
    let ghost vf = view_of_fields(rec.fields@);
    proof {
        lemma_view_of_fields(rec.fields@);
        assert(vf.skip(0) =~= vf);
        assert(props@.skip(0) =~= props@);
        assert(Seq::<ColumnValue>::empty() + spec_key_of(vf, props@) =~= spec_key_of(vf, props@));
    }
    let mut out: Vec<ColumnValue> = Vec::new();
    let mut i: usize = 0;
    while i < props.len()
        invariant
            i <= props@.len(),
            rec.fields@.len() == props@.len(),
            vf == view_of_fields(rec.fields@),
            vf.len() == props@.len(),
            forall|k: int|
                0 <= k < vf.len() ==> vf[k] == view_of_field(#[trigger] rec.fields@[k]),
            out@ + spec_key_of(vf.skip(i as int), props@.skip(i as int)) == spec_key_of(
                vf,
                props@,
            ),
        decreases props@.len() - i,
    {
        let ghost out0 = out@;
        let ghost fs = vf.skip(i as int);
        let ghost ps = props@.skip(i as int);
        proof {
            assert(fs.drop_first() =~= vf.skip(i + 1));
            assert(ps.drop_first() =~= props@.skip(i + 1));
            assert(ps[0] == props@[i as int]);
            assert(fs[0] == vf[i as int]);
        }
        if props[i].key {
            let mut part = encode_field(&rec.fields[i]);
            out.append(&mut part);
            proof {
                assert(spec_key_of(fs, ps) == spec_encode_field(vf[i as int]) + spec_key_of(
                    vf.skip(i + 1),
                    props@.skip(i + 1),
                ));
                assert(out@ + spec_key_of(vf.skip(i + 1), props@.skip(i + 1)) =~= out0
                    + spec_key_of(fs, ps));
            }
        } else {
            proof {
                assert(spec_key_of(fs, ps) == Seq::<ColumnValue>::empty() + spec_key_of(
                    vf.skip(i + 1),
                    props@.skip(i + 1),
                ));
                assert(out@ + spec_key_of(vf.skip(i + 1), props@.skip(i + 1)) =~= out0
                    + spec_key_of(fs, ps));
            }
        }
        i += 1;
    }
    proof {
        assert(props@.skip(props@.len() as int) =~= Seq::<Property>::empty());
        assert(out@ + Seq::<ColumnValue>::empty() =~= out@);
    }
    out
}

/// The concatenated column encodings of the record's fields that are
/// neither key nor merge fields, in declaration order.
pub fn fixed_of_record(rec: &Record, props: &Vec<Property>) -> (r: Vec<ColumnValue>)
    requires
        rec.fields@.len() == props@.len(),
    ensures
        r@ == spec_fixed_of(rec@, props@),
{
    let ghost vf = view_of_fields(rec.fields@);
    proof {
        lemma_view_of_fields(rec.fields@);
        assert(vf.skip(0) =~= vf);
        assert(props@.skip(0) =~= props@);
        assert(Seq::<ColumnValue>::empty() + spec_fixed_of(vf, props@) =~= spec_fixed_of(
            vf,
            props@,
        ));
    }
    let mut out: Vec<ColumnValue> = Vec::new();
    let mut i: usize = 0;
    while i < props.len()
        invariant
            i <= props@.len(),
            rec.fields@.len() == props@.len(),
            vf == view_of_fields(rec.fields@),
            vf.len() == props@.len(),
            forall|k: int|
                0 <= k < vf.len() ==> vf[k] == view_of_field(#[trigger] rec.fields@[k]),
            out@ + spec_fixed_of(vf.skip(i as int), props@.skip(i as int)) == spec_fixed_of(
                vf,
                props@,
            ),
        decreases props@.len() - i,
    {
        let ghost out0 = out@;
        let ghost fs = vf.skip(i as int);
        let ghost ps = props@.skip(i as int);
        proof {
            assert(fs.drop_first() =~= vf.skip(i + 1));
            assert(ps.drop_first() =~= props@.skip(i + 1));
            assert(ps[0] == props@[i as int]);
            assert(fs[0] == vf[i as int]);
        }
        if !props[i].key && !props[i].merge {
            let mut part = encode_field(&rec.fields[i]);
            out.append(&mut part);
            proof {
                assert(spec_fixed_of(fs, ps) == spec_encode_field(vf[i as int]) + spec_fixed_of(
                    vf.skip(i + 1),
                    props@.skip(i + 1),
                ));
                assert(out@ + spec_fixed_of(vf.skip(i + 1), props@.skip(i + 1)) =~= out0
                    + spec_fixed_of(fs, ps));
            }
        } else {
            proof {
                assert(spec_fixed_of(fs, ps) == Seq::<ColumnValue>::empty() + spec_fixed_of(
                    vf.skip(i + 1),
                    props@.skip(i + 1),
                ));
                assert(out@ + spec_fixed_of(vf.skip(i + 1), props@.skip(i + 1)) =~= out0
                    + spec_fixed_of(fs, ps));
            }
        }
        i += 1;
    }
    proof {
        assert(props@.skip(props@.len() as int) =~= Seq::<Property>::empty());
        assert(out@ + Seq::<ColumnValue>::empty() =~= out@);
    }
    out
}

/// Fresh copies of the record's merge-field values, in declaration order.
pub fn merge_values_of_record(rec: &Record, props: &Vec<Property>) -> (r: Vec<FieldValue>)
    requires
        rec.fields@.len() == props@.len(),
    ensures
        view_of_fields(r@) == spec_merge_values_of(rec@, props@),
{
    let ghost vf = view_of_fields(rec.fields@);
    proof {
        lemma_view_of_fields(rec.fields@);
        assert(vf.skip(0) =~= vf);
        assert(props@.skip(0) =~= props@);
        assert(view_of_fields(Seq::<FieldValue>::empty()) =~= Seq::<SpecFieldValue>::empty());
        assert(Seq::<SpecFieldValue>::empty() + spec_merge_values_of(vf, props@)
            =~= spec_merge_values_of(vf, props@));
    }
    let mut out: Vec<FieldValue> = Vec::new();
    let mut i: usize = 0;
    while i < props.len()
        invariant
            i <= props@.len(),
            rec.fields@.len() == props@.len(),
            vf == view_of_fields(rec.fields@),
            vf.len() == props@.len(),
            forall|k: int|
                0 <= k < vf.len() ==> vf[k] == view_of_field(#[trigger] rec.fields@[k]),
            view_of_fields(out@) + spec_merge_values_of(vf.skip(i as int), props@.skip(i as int))
                == spec_merge_values_of(vf, props@),
        decreases props@.len() - i,
    {
        let ghost out0 = out@;
        let ghost fs = vf.skip(i as int);
        let ghost ps = props@.skip(i as int);
        proof {
            assert(fs.drop_first() =~= vf.skip(i + 1));
            assert(ps.drop_first() =~= props@.skip(i + 1));
            assert(ps[0] == props@[i as int]);
            assert(fs[0] == vf[i as int]);
        }
        if props[i].merge {
            let cf = copy_field(&rec.fields[i]);
            out.push(cf);
            proof {
                assert(out@ =~= out0 + seq![out@[out@.len() - 1]]);
                lemma_view_of_fields_concat(out0, seq![out@[out@.len() - 1]]);
                lemma_view_of_fields(seq![out@[out@.len() - 1]]);
                assert(view_of_fields(seq![out@[out@.len() - 1]]) =~= seq![vf[i as int]]);
                assert(spec_merge_values_of(fs, ps) == seq![vf[i as int]] + spec_merge_values_of(
                    vf.skip(i + 1),
                    props@.skip(i + 1),
                ));
                assert(view_of_fields(out@) + spec_merge_values_of(
                    vf.skip(i + 1),
                    props@.skip(i + 1),
                ) =~= view_of_fields(out0) + spec_merge_values_of(fs, ps));
            }
        } else {
            proof {
                assert(spec_merge_values_of(fs, ps) == Seq::<SpecFieldValue>::empty()
                    + spec_merge_values_of(vf.skip(i + 1), props@.skip(i + 1)));
                assert(view_of_fields(out@) + spec_merge_values_of(
                    vf.skip(i + 1),
                    props@.skip(i + 1),
                ) =~= view_of_fields(out0) + spec_merge_values_of(fs, ps));
            }
        }
        i += 1;
    }
    proof {
        assert(props@.skip(props@.len() as int) =~= Seq::<Property>::empty());
        assert(view_of_fields(out@) + Seq::<SpecFieldValue>::empty() =~= view_of_fields(out@));
    }
    out
}

/// The first group carrying `key`, if any.
fn find_group(groups: &Vec<MergeGroup>, key: &Vec<ColumnValue>) -> (r: Option<usize>)
    ensures
        match r {
            Some(j) => j < groups@.len() && spec_group_index(view_of_groups(groups@), key@)
                == j,
            None => spec_group_index(view_of_groups(groups@), key@) == -1,
        },
{
    let ghost gv = view_of_groups(groups@);
    let mut j: usize = 0;
    while j < groups.len()
        invariant
            j <= groups@.len(),
            gv == view_of_groups(groups@),
            gv.len() == groups@.len(),
            forall|k: int| 0 <= k < j ==> (#[trigger] gv[k]).key != key@,
        decreases groups@.len() - j,
    {
        if columns_equal(&groups[j].key, key) {
            proof {
                assert(gv[j as int].key == key@);
                lemma_group_index(gv, key@);
                let r = spec_group_index(gv, key@);
                assert(r != -1);
                assert(!(r < j));
                assert(!(j < r));
            }
            return Some(j);
        }
        proof {
            assert(gv[j as int].key != key@);
        }
        j += 1;
    }
    proof {
        lemma_group_index(gv, key@);
        let r = spec_group_index(gv, key@);
        if r != -1 {
            assert(gv[r].key == key@);
        }
    }
    None
}

/// Under merge kind `Hash` a key owns at most one group: the first
/// occurrence of a key creates its entry and every later occurrence joins
/// it, so the finished groups carry pairwise distinct keys.
pub proof fn lemma_hash_keys_unique(rows: Seq<Seq<ColumnValue>>, c: Container)
    ensures
        spec_merge_rows(rows, c, MergeKind::Hash) matches Ok(groups) ==> forall|j: int, k: int|
            0 <= j < k < groups.len() ==> (#[trigger] groups[j]).key != (#[trigger] groups[k]).key,
    decreases rows.len(),
{
    if rows.len() == 0 {
        return;
    }
    lemma_hash_keys_unique(rows.drop_last(), c);
    match spec_merge_rows(rows.drop_last(), c, MergeKind::Hash) {
        Err(_) => {},
        Ok(groups) => match spec_decode(rows.last(), c) {
            Err(_) => {},
            Ok(fields) => {
                let key = spec_key_of(fields, c.props@);
                let idx = spec_group_index(groups, key);
                lemma_group_index(groups, key);
                if idx == -1 {
                    let pushed = groups.push(
                        SpecGroup {
                            key,
                            first: fields,
                            merged: spec_merge_values_of(fields, c.props@),
                        },
                    );
                    assert forall|j: int, k: int|
                        0 <= j < k < pushed.len() implies (#[trigger] pushed[j]).key != (
                    #[trigger] pushed[k]).key by {
                        if k < groups.len() {
                            assert(pushed[j] == groups[j] && pushed[k] == groups[k]);
                        } else {
                            assert(pushed[j] == groups[j] && pushed[k].key == key);
                        }
                    }
                } else if spec_fixed_of(fields, c.props@) == spec_fixed_of(
                    groups[idx].first,
                    c.props@,
                ) {
                    let updated = groups.update(
                        idx,
                        SpecGroup {
                            key: groups[idx].key,
                            first: groups[idx].first,
                            merged: groups[idx].merged + spec_merge_values_of(fields, c.props@),
                        },
                    );
                    assert forall|j: int, k: int|
                        0 <= j < k < updated.len() implies (#[trigger] updated[j]).key != (
                    #[trigger] updated[k]).key by {
                        assert(updated[j].key == groups[j].key);
                        assert(updated[k].key == groups[k].key);
                    }
                }
            },
        },
    }
}

/// Under merge kind `Group` only the immediately preceding group can be
/// joined, so two neighbouring groups never carry the same key: equal keys
/// separated by a different key start a new group instead of rejoining an
/// earlier one.
pub proof fn lemma_group_adjacent_keys_differ(rows: Seq<Seq<ColumnValue>>, c: Container)
    ensures
        spec_merge_rows(rows, c, MergeKind::Group) matches Ok(groups) ==> forall|j: int|
            0 <= j < groups.len() - 1 ==> (#[trigger] groups[j]).key != groups[j + 1].key,
    decreases rows.len(),
{
    if rows.len() == 0 {
        return;
    }
    lemma_group_adjacent_keys_differ(rows.drop_last(), c);
    match spec_merge_rows(rows.drop_last(), c, MergeKind::Group) {
        Err(_) => {},
        Ok(groups) => match spec_decode(rows.last(), c) {
            Err(_) => {},
            Ok(fields) => {
                let key = spec_key_of(fields, c.props@);
                let idx = spec_target_index(groups, key, MergeKind::Group);
                if idx == -1 {
                    let pushed = groups.push(
                        SpecGroup {
                            key,
                            first: fields,
                            merged: spec_merge_values_of(fields, c.props@),
                        },
                    );
                    assert forall|j: int|
                        0 <= j < pushed.len() - 1 implies (#[trigger] pushed[j]).key != pushed[j
                        + 1].key by {
                        if j + 1 < groups.len() {
                            assert(pushed[j] == groups[j] && pushed[j + 1] == groups[j + 1]);
                        } else if groups.len() > 0 {
                            assert(pushed[j] == groups[j] && pushed[j + 1].key == key);
                            assert(groups.last().key != key);
                            assert(groups[j] == groups.last());
                        }
                    }
                } else if spec_fixed_of(fields, c.props@) == spec_fixed_of(
                    groups[idx].first,
                    c.props@,
                ) {
                    let updated = groups.update(
                        idx,
                        SpecGroup {
                            key: groups[idx].key,
                            first: groups[idx].first,
                            merged: groups[idx].merged + spec_merge_values_of(fields, c.props@),
                        },
                    );
                    assert forall|j: int|
                        0 <= j < updated.len() - 1 implies (#[trigger] updated[j]).key
                        != updated[j + 1].key by {
                        assert(updated[j].key == groups[j].key);
                        assert(updated[j + 1].key == groups[j + 1].key);
                    }
                }
            },
        },
    }
}

/// Every group's first record has one field per property of `c`, as a
/// record decoded from `c` does.
pub open spec fn groups_wf(groups: Seq<MergeGroup>, c: Container) -> bool {
    forall|k: int|
        0 <= k < groups.len() ==> (#[trigger] groups[k]).first.fields@.len() == c.props@.len()
}

/// Feeds one row into an in-progress merge: decodes it and folds it into
/// `groups` exactly as `spec_merge_step` says. On an error the groups are
/// left as they were, so a caller may skip the row and go on. This is the
/// single-consumer pull interface: a driver that fetches rows one at a time
/// calls this once per row and owns the groups between calls.
pub fn merge_step(groups: &mut Vec<MergeGroup>, row: &Vec<ColumnValue>, c: &Container) -> (r:
    Result<(), DecodeError>)
    requires
        container_tree_ok(*c),
        c.attrs.merge is Some,
        groups_wf(old(groups)@, *c),
    ensures
        match r {
            Ok(()) => {
                &&& spec_merge_step(
                    view_of_groups(old(groups)@),
                    row@,
                    *c,
                    c.attrs.merge->0,
                ) == Ok::<_, DecodeError>(view_of_groups(final(groups)@))
                &&& groups_wf(final(groups)@, *c)
            },
            Err(e) => {
                &&& spec_merge_step(
                    view_of_groups(old(groups)@),
                    row@,
                    *c,
                    c.attrs.merge->0,
                ) == Err::<Seq<SpecGroup>, _>(e)
                &&& final(groups)@ == old(groups)@
            },
        },
{
    let kind: MergeKind = match c.attrs.merge {
        Some(k) => k,
        None => {
            proof {
                assert(false);
            }
            MergeKind::Group
        },
    };
    let ghost gv = view_of_groups(groups@);
    let rec = match decode(row, c) {
        Ok(rec) => rec,
        Err(e) => {
            return Err(e);
        },
    };
    proof {
        lemma_decode_props_field_count(row@, c.props@, c.attrs.partition);
        lemma_view_of_fields(rec.fields@);
        assert(rec.fields@.len() == c.props@.len());
    }
    let key = key_of_record(&rec, &c.props);
    let m = merge_values_of_record(&rec, &c.props);
    let ghost m_spec = view_of_fields(m@);
    let fixed = fixed_of_record(&rec, &c.props);
    let target: Option<usize> = match kind {
        MergeKind::Group => {
            if groups.len() > 0 {
                let last = groups.len() - 1;
                proof {
                    assert(gv[last as int] == groups@[last as int]@);
                    assert(gv.last() == gv[last as int]);
                }
                if columns_equal(&groups[last].key, &key) {
                    Some(last)
                } else {
                    None
                }
            } else {
                None
            }
        },
        MergeKind::Hash => find_group(&groups, &key),
    };
    proof {
        match target {
            Some(j) => {
                assert(spec_target_index(gv, key@, kind) == j);
            },
            None => {
                assert(spec_target_index(gv, key@, kind) == -1);
            },
        }
    }
    match target {
        None => {
            let g = MergeGroup { key, first: rec, merged: m };
            let ghost groups0 = groups@;
            groups.push(g);
            proof {
                assert(groups@ =~= groups0.push(g));
                assert(view_of_groups(groups@) =~= gv.push(
                    SpecGroup {
                        key: spec_key_of(view_of_fields(g.first.fields@), c.props@),
                        first: view_of_fields(g.first.fields@),
                        merged: m_spec,
                    },
                ));
            }
            Ok(())
        },
        Some(j) => {
            let existing = fixed_of_record(&groups[j].first, &c.props);
            proof {
                assert(gv[j as int] == groups@[j as int]@);
            }
            if !columns_equal(&fixed, &existing) {
                return Err(DecodeError::InconsistentGroupFields);
            }
            let ghost groups0 = groups@;
            let mut g = groups.remove(j);
            let ghost gmerged0 = g.merged@;
            let mut m2 = m;
            g.merged.append(&mut m2);
            proof {
                lemma_view_of_fields_concat(gmerged0, m@);
            }
            groups.insert(j, g);
            proof {
                assert(groups@ =~= groups0.update(j as int, g));
                assert(g@ == SpecGroup {
                    key: gv[j as int].key,
                    first: gv[j as int].first,
                    merged: gv[j as int].merged + m_spec,
                });
                assert(view_of_groups(groups@) =~= gv.update(
                    j as int,
                    SpecGroup {
                        key: gv[j as int].key,
                        first: gv[j as int].first,
                        merged: gv[j as int].merged + m_spec,
                    },
                ));
            }
            Ok(())
        },
    }
}

/// Folds a finite, ordered row stream into merge groups, in encounter
/// order; the exact semantics, including which error comes on which stream,
/// are those of `spec_merge_rows` under the container's merge kind. The
/// validator must have accepted the descriptor tree first. The whole merge
/// fails on the first row that fails.
pub fn merge_rows(rows: &Vec<Vec<ColumnValue>>, c: &Container) -> (r: Result<
    Vec<MergeGroup>,
    DecodeError,
>)
    requires
        container_tree_ok(*c),
        c.attrs.merge is Some,
    ensures
        match r {
            Ok(groups) => spec_merge_rows(view_of_rows(rows@), *c, c.attrs.merge->0) == Ok::<
                _,
                DecodeError,
            >(view_of_groups(groups@)),
            Err(e) => spec_merge_rows(view_of_rows(rows@), *c, c.attrs.merge->0) == Err::<
                Seq<SpecGroup>,
                _,
            >(e),
        },
{
    let ghost kind = c.attrs.merge->0;
    let ghost all = view_of_rows(rows@);
    let mut groups: Vec<MergeGroup> = Vec::new();
    let mut i: usize = 0;
    proof {
        assert(view_of_rows(rows@.take(0)) =~= Seq::<Seq<ColumnValue>>::empty());
        assert(view_of_groups(groups@) =~= Seq::<SpecGroup>::empty());
    }
    while i < rows.len()
        invariant
            i <= rows@.len(),
            container_tree_ok(*c),
            c.attrs.merge is Some,
            kind == c.attrs.merge->0,
            all == view_of_rows(rows@),
            spec_merge_rows(view_of_rows(rows@.take(i as int)), *c, kind) == Ok::<
                _,
                DecodeError,
            >(view_of_groups(groups@)),
            groups_wf(groups@, *c),
        decreases rows@.len() - i,
    {
        let ghost prefix = view_of_rows(rows@.take(i as int));
        let ghost prefix1 = view_of_rows(rows@.take(i + 1));
        proof {
            assert(rows@.take(i + 1).drop_last() =~= rows@.take(i as int));
            assert(prefix1.drop_last() =~= prefix);
            assert(prefix1.last() == rows@[i as int]@);
            assert(all.take(i + 1) =~= prefix1);
        }
        match merge_step(&mut groups, &rows[i], c) {
            Ok(()) => {},
            Err(e) => {
                proof {
                    assert(spec_merge_rows(prefix1, *c, kind) == Err::<Seq<SpecGroup>, _>(e));
                    lemma_merge_error_persists(all, i + 1, *c, kind);
                }
                return Err(e);
            },
        }
        i += 1;
    }
    proof {
        assert(rows@.take(rows@.len() as int) =~= rows@);
    }
    Ok(groups)
}

} // verus!
