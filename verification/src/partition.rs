//! The partitioner: assigns each property of a container a contiguous
//! sub-range of a row's columns and decodes it, recursing into nested
//! containers. The encoder is its inverse: it lays a record's fields back
//! out as the row they were decoded from.
//!
//! Width policy: a property's width is determined by the descriptor alone,
//! except that a fixed-stride sequence claims every remaining column. A
//! nested container therefore reports how many columns it consumed, and
//! columns left unconsumed at the end of the outermost container are an
//! error.

use vstd::prelude::*;
use crate::descriptor::{
    ColumnType, ColumnValue, Container, DecodeError, FieldValue, PartitionKind, Property, Record,
    SpecFieldValue, column_matches, container_tree_ok, lemma_view_of_fields, view_of_field,
    view_of_fields,
};

verus! {

broadcast use vstd::std_specs::vec::group_vec_axioms;

/// `cols` carved into contiguous chunks of `s` columns, front to back. When
/// `s` does not divide the length, the final chunk is what is left over;
/// decoding only reads this on evenly divisible input.
pub open spec fn spec_chunks(cols: Seq<ColumnValue>, s: int) -> Seq<Seq<ColumnValue>>
    decreases cols.len(),
{
    if s <= 0 || cols.len() == 0 {
        Seq::empty()
    } else if cols.len() <= s {
        seq![cols]
    } else {
        seq![cols.take(s)] + spec_chunks(cols.skip(s), s)
    }
}

/// Every column of `cols` has the representation that `ty` requires.
pub open spec fn all_columns_match(ty: ColumnType, cols: Seq<ColumnValue>) -> bool {
    forall|i: int| 0 <= i < cols.len() ==> column_matches(ty, #[trigger] cols[i])
}

/// Decodes the properties `props` of a container with partition kind
/// `partition` from the front of `cols`, left to right. Returns the decoded
/// field models and the number of columns consumed, or the first error met:
///
/// - a plain property consumes the next single column, `RowTooShort` when
///   none remains and `TypeMismatch` when its representation does not
///   convert;
/// - under partition kind `Split`, a `split` property hands the remaining
///   columns to its nested container and consumes as many as the nested
///   container does;
/// - under partition kind `Exact`, a `stride` property claims every
///   remaining column: `StrideMismatch` unless the stride is positive and
///   divides the remainder evenly, else one element per stride-width chunk.
pub open spec fn spec_decode_props(
    cols: Seq<ColumnValue>,
    props: Seq<Property>,
    partition: Option<PartitionKind>,
) -> Result<(Seq<SpecFieldValue>, int), DecodeError>
    decreases props,
{
    if props.len() == 0 {
        Ok((Seq::empty(), 0))
    } else {
        let p = props[0];
        let rest = props.drop_first();
        if partition == Some(PartitionKind::Split) && p.split is Some {
            let nested = *p.split->0;
            match spec_decode_props(cols, nested.props@, nested.attrs.partition) {
                Err(e) => Err(e),
                Ok((sub, used)) => match spec_decode_props(cols.skip(used), rest, partition) {
                    Err(e) => Err(e),
                    Ok((tail, used_tail)) => Ok(
                        (seq![SpecFieldValue::Nested(sub)] + tail, used + used_tail),
                    ),
                },
            }
        } else if partition == Some(PartitionKind::Exact) && p.stride is Some {
            let s = p.stride->0 as int;
            if s <= 0 || cols.len() as int % s != 0 {
                Err(DecodeError::StrideMismatch)
            } else if !all_columns_match(p.ty, cols) {
                Err(DecodeError::TypeMismatch)
            } else {
                match spec_decode_props(cols.skip(cols.len() as int), rest, partition) {
                    Err(e) => Err(e),
                    Ok((tail, used_tail)) => Ok(
                        (
                            seq![SpecFieldValue::Elements(spec_chunks(cols, s))] + tail,
                            cols.len() + used_tail,
                        ),
                    ),
                }
            }
        } else {
            if cols.len() == 0 {
                Err(DecodeError::RowTooShort)
            } else if !column_matches(p.ty, cols[0]) {
                Err(DecodeError::TypeMismatch)
            } else {
                match spec_decode_props(cols.skip(1), rest, partition) {
                    Err(e) => Err(e),
                    Ok((tail, used_tail)) => Ok(
                        (seq![SpecFieldValue::Column(cols[0])] + tail, 1 + used_tail),
                    ),
                }
            }
        }
    }
}

/// Decodes a contiguous range of a row into one container instance, without
/// demanding that the range be fully consumed; the caller learns the
/// consumed width.
pub open spec fn spec_decode_range(cols: Seq<ColumnValue>, c: Container) -> Result<
    (Seq<SpecFieldValue>, int),
    DecodeError,
> {
    spec_decode_props(cols, c.props@, c.attrs.partition)
}

/// Decodes one whole row into one container instance. A container without a
/// partition kind requires exactly one column per property, the count
/// checked before any column converts; otherwise columns left unconsumed
/// after the last property are `RowTooLong`.
pub open spec fn spec_decode(cols: Seq<ColumnValue>, c: Container) -> Result<
    Seq<SpecFieldValue>,
    DecodeError,
> {
    if c.attrs.partition is None && cols.len() > c.props@.len() {
        Err(DecodeError::RowTooLong)
    } else if c.attrs.partition is None && cols.len() < c.props@.len() {
        Err(DecodeError::RowTooShort)
    } else {
        match spec_decode_range(cols, c) {
            Err(e) => Err(e),
            Ok((fields, used)) => if used == cols.len() {
                Ok(fields)
            } else {
                Err(DecodeError::RowTooLong)
            },
        }
    }
}

/// The row a single field value lays back out to: a plain column is itself,
/// a nested record is its fields in order, a sequence is its elements
/// concatenated.
pub open spec fn spec_encode_field(f: SpecFieldValue) -> Seq<ColumnValue>
    decreases f,
{
    match f {
        SpecFieldValue::Column(v) => seq![v],
        SpecFieldValue::Nested(sub) => spec_encode_fields(sub),
        SpecFieldValue::Elements(elems) => spec_concat(elems),
    }
}

/// The row a record's fields lay back out to, in declaration order.
pub open spec fn spec_encode_fields(fields: Seq<SpecFieldValue>) -> Seq<ColumnValue>
    decreases fields,
{
    if fields.len() == 0 {
        Seq::empty()
    } else {
        spec_encode_field(fields[0]) + spec_encode_fields(fields.drop_first())
    }
}

/// The concatenation of a sequence of column chunks, front to back.
pub open spec fn spec_concat(elems: Seq<Seq<ColumnValue>>) -> Seq<ColumnValue>
    decreases elems.len(),
{
    if elems.len() == 0 {
        Seq::empty()
    } else {
        elems[0] + spec_concat(elems.drop_first())
    }
}

/// Re-encodes one decoded field into the columns it was decoded from.
pub fn encode_field(f: &FieldValue) -> (r: Vec<ColumnValue>)
    ensures
        r@ == spec_encode_field(view_of_field(*f)),
    decreases *f,
{
    match f {
        FieldValue::Column(v) => {
            let mut out: Vec<ColumnValue> = Vec::new();
            out.push(*v);
            proof {
                assert(out@ =~= seq![*v]);
            }
            out
        },
        FieldValue::Nested(r) => encode_record(&**r),
        FieldValue::Elements(elems) => {
            let ghost es = Seq::new(elems@.len(), |k: int| elems@[k]@);
            let mut out: Vec<ColumnValue> = Vec::new();
            let mut i: usize = 0;
            proof {
                assert(es.skip(0) =~= es);
                assert(out@ + spec_concat(es) =~= spec_concat(es));
            }
            while i < elems.len()
                invariant
                    i <= elems@.len(),
                    es == Seq::new(elems@.len(), |k: int| elems@[k]@),
                    out@ + spec_concat(es.skip(i as int)) == spec_concat(es),
                decreases elems@.len() - i,
            {
                let ghost out0 = out@;
                let elem = &elems[i];
                let mut j: usize = 0;
                while j < elem.len()
                    invariant
                        j <= elem@.len(),
                        out@ == out0 + elem@.take(j as int),
                    decreases elem@.len() - j,
                {
                    out.push(elem[j]);
                    proof {
                        assert(out@ =~= out0 + elem@.take(j + 1));
                    }
                    j += 1;
                }
                proof {
                    assert(elem@.take(elem@.len() as int) =~= elem@);
                    assert(es.skip(i as int).drop_first() =~= es.skip(i + 1));
                    assert(es.skip(i as int)[0] == es[i as int]);
                    assert(es[i as int] == elems@[i as int]@);
                    assert(spec_concat(es.skip(i as int)) == es[i as int] + spec_concat(
                        es.skip(i + 1),
                    ));
                    assert(out@ + spec_concat(es.skip(i + 1)) =~= out0 + spec_concat(
                        es.skip(i as int),
                    ));
                }
                i += 1;
            }
            proof {
                assert(es.skip(elems@.len() as int) =~= Seq::<Seq<ColumnValue>>::empty());
                assert(out@ + spec_concat(es.skip(elems@.len() as int)) =~= out@);
            }
            out
        },
    }
}

/// Re-encodes a record's fields in declaration order into the row they were
/// decoded from.
pub fn encode_record(rec: &Record) -> (r: Vec<ColumnValue>)
    ensures
        r@ == spec_encode_fields(rec@),
    decreases *rec,
{
    let ghost vf = view_of_fields(rec.fields@);
    proof {
        lemma_view_of_fields(rec.fields@);
    }
    let mut out: Vec<ColumnValue> = Vec::new();
    let mut i: usize = 0;
    proof {
        assert(vf.skip(0) =~= vf);
        assert(out@ + spec_encode_fields(vf) =~= spec_encode_fields(vf));
    }
    while i < rec.fields.len()
        invariant
            i <= rec.fields@.len(),
            vf == view_of_fields(rec.fields@),
            vf.len() == rec.fields@.len(),
            forall|k: int| 0 <= k < vf.len() ==> vf[k] == view_of_field(#[trigger] rec.fields@[k]),
            out@ + spec_encode_fields(vf.skip(i as int)) == spec_encode_fields(vf),
        decreases rec.fields@.len() - i,
    {
        let mut part = encode_field(&rec.fields[i]);
        let ghost out0 = out@;
        out.append(&mut part);
        proof {
            assert(vf.skip(i as int).drop_first() =~= vf.skip(i + 1));
            assert(vf.skip(i as int)[0] == vf[i as int]);
            assert(spec_encode_fields(vf.skip(i as int)) == spec_encode_field(vf[i as int])
                + spec_encode_fields(vf.skip(i + 1)));
            assert(out@ + spec_encode_fields(vf.skip(i + 1)) =~= out0 + spec_encode_fields(
                vf.skip(i as int),
            ));
        }
        i += 1;
    }
    proof {
        assert(vf.skip(vf.len() as int) =~= Seq::<SpecFieldValue>::empty());
        assert(out@ + spec_encode_fields(vf.skip(vf.len() as int)) =~= out@);
    }
    out
}

/// Each chunk of an evenly divisible carve is exactly `s` columns wide, and
/// the chunk count times the stride gives back the column count.
pub proof fn lemma_chunks_of_even(cols: Seq<ColumnValue>, s: int)
    requires
        1 <= s,
        cols.len() as int % s == 0,
    ensures
        spec_chunks(cols, s).len() * s == cols.len(),
        forall|i: int|
            0 <= i < spec_chunks(cols, s).len() ==> (#[trigger] spec_chunks(cols, s)[i]).len()
                == s,
    decreases cols.len(),
{
    if cols.len() == 0 {
    } else if cols.len() <= s {
        assert(cols.len() == s) by (nonlinear_arith)
            requires
                cols.len() as int % s == 0,
                0 < cols.len() <= s,
                1 <= s,
        ;
        assert(spec_chunks(cols, s) == seq![cols]);
        assert(1 * s == s) by (nonlinear_arith);
    } else {
        assert((cols.len() - s) % s == 0) by (nonlinear_arith)
            requires
                cols.len() as int % s == 0,
                1 <= s,
        ;
        lemma_chunks_of_even(cols.skip(s), s);
        let chunks = spec_chunks(cols, s);
        let rest = spec_chunks(cols.skip(s), s);
        assert(chunks == seq![cols.take(s)] + rest);
        assert(chunks.len() * s == cols.len()) by (nonlinear_arith)
            requires
                chunks.len() == 1 + rest.len(),
                rest.len() * s == cols.len() - s,
        ;
    }
}

/// Concatenating the chunks of a carve gives back the columns.
pub proof fn lemma_concat_chunks(cols: Seq<ColumnValue>, s: int)
    requires
        1 <= s,
    ensures
        spec_concat(spec_chunks(cols, s)) == cols,
    decreases cols.len(),
{
    if cols.len() == 0 {
        assert(spec_concat(spec_chunks(cols, s)) =~= cols);
    } else if cols.len() <= s {
        let chunks = spec_chunks(cols, s);
        assert(chunks == seq![cols]);
        assert(chunks.drop_first() =~= Seq::<Seq<ColumnValue>>::empty());
        assert(spec_concat(Seq::<Seq<ColumnValue>>::empty()) == Seq::<ColumnValue>::empty());
        assert(chunks[0] == cols);
        assert(spec_concat(chunks) =~= cols);
    } else {
        lemma_concat_chunks(cols.skip(s), s);
        let chunks = spec_chunks(cols, s);
        assert(chunks == seq![cols.take(s)] + spec_chunks(cols.skip(s), s));
        assert(chunks.drop_first() =~= spec_chunks(cols.skip(s), s));
        assert(spec_concat(chunks) == cols.take(s) + spec_concat(spec_chunks(cols.skip(s), s)));
        assert(cols.take(s) + cols.skip(s) =~= cols);
    }
}

/// What a successful range decode consumes it reproduces: re-encoding the
/// decoded fields in declaration order gives back exactly the consumed
/// prefix of the columns.
pub proof fn lemma_decode_props_encode(
    cols: Seq<ColumnValue>,
    props: Seq<Property>,
    partition: Option<PartitionKind>,
)
    ensures
        spec_decode_props(cols, props, partition) matches Ok((fields, used)) ==> {
            &&& 0 <= used <= cols.len()
            &&& spec_encode_fields(fields) == cols.take(used)
        },
    decreases props,
{
    if props.len() == 0 {
        if spec_decode_props(cols, props, partition) is Ok {
            assert(spec_encode_fields(Seq::<SpecFieldValue>::empty()) =~= cols.take(0));
        }
        return;
    }
    let p = props[0];
    let rest = props.drop_first();
    if partition == Some(PartitionKind::Split) && p.split is Some {
        let nested = *p.split->0;
        lemma_decode_props_encode(cols, nested.props@, nested.attrs.partition);
        match spec_decode_props(cols, nested.props@, nested.attrs.partition) {
            Err(_) => {},
            Ok((sub, used)) => {
                lemma_decode_props_encode(cols.skip(used), rest, partition);
                match spec_decode_props(cols.skip(used), rest, partition) {
                    Err(_) => {},
                    Ok((tail, used_tail)) => {
                        let all = seq![SpecFieldValue::Nested(sub)] + tail;
                        assert(all.drop_first() =~= tail);
                        assert(all[0] == SpecFieldValue::Nested(sub));
                        assert(spec_encode_field(SpecFieldValue::Nested(sub))
                            == spec_encode_fields(sub));
                        assert(spec_encode_fields(all) == spec_encode_fields(sub)
                            + spec_encode_fields(tail));
                        assert(cols.take(used) + cols.skip(used).take(used_tail) =~= cols.take(
                            used + used_tail,
                        ));
                    },
                }
            },
        }
    } else if partition == Some(PartitionKind::Exact) && p.stride is Some {
        let s = p.stride->0 as int;
        if s >= 1 && cols.len() as int % s == 0 && all_columns_match(p.ty, cols) {
            lemma_concat_chunks(cols, s);
            let empty_cols = cols.skip(cols.len() as int);
            lemma_decode_props_encode(empty_cols, rest, partition);
            match spec_decode_props(empty_cols, rest, partition) {
                Err(_) => {},
                Ok((tail, used_tail)) => {
                    assert(used_tail == 0);
                    let all = seq![SpecFieldValue::Elements(spec_chunks(cols, s))] + tail;
                    assert(all.drop_first() =~= tail);
                    assert(all[0] == SpecFieldValue::Elements(spec_chunks(cols, s)));
                    assert(spec_encode_field(SpecFieldValue::Elements(spec_chunks(cols, s)))
                        == spec_concat(spec_chunks(cols, s)));
                    assert(spec_encode_fields(tail) == empty_cols.take(0));
                    assert(empty_cols.take(0) =~= Seq::<ColumnValue>::empty());
                    assert(spec_encode_fields(all) == spec_concat(spec_chunks(cols, s))
                        + spec_encode_fields(tail));
                    assert(cols + Seq::<ColumnValue>::empty() =~= cols.take(
                        cols.len() + used_tail,
                    ));
                },
            }
        }
    } else {
        if cols.len() > 0 && column_matches(p.ty, cols[0]) {
            lemma_decode_props_encode(cols.skip(1), rest, partition);
            match spec_decode_props(cols.skip(1), rest, partition) {
                Err(_) => {},
                Ok((tail, used_tail)) => {
                    let all = seq![SpecFieldValue::Column(cols[0])] + tail;
                    assert(all.drop_first() =~= tail);
                    assert(all[0] == SpecFieldValue::Column(cols[0]));
                    assert(spec_encode_field(SpecFieldValue::Column(cols[0])) == seq![cols[0]]);
                    assert(spec_encode_fields(all) == seq![cols[0]] + spec_encode_fields(tail));
                    assert(seq![cols[0]] + cols.skip(1).take(used_tail) =~= cols.take(
                        1 + used_tail,
                    ));
                },
            }
        }
    }
}

/// A successful range decode produces exactly one field per property.
pub proof fn lemma_decode_props_field_count(
    cols: Seq<ColumnValue>,
    props: Seq<Property>,
    partition: Option<PartitionKind>,
)
    ensures
        spec_decode_props(cols, props, partition) matches Ok((fields, used)) ==> fields.len()
            == props.len(),
    decreases props,
{
    if props.len() == 0 {
        return;
    }
    let p = props[0];
    let rest = props.drop_first();
    if partition == Some(PartitionKind::Split) && p.split is Some {
        let nested = *p.split->0;
        match spec_decode_props(cols, nested.props@, nested.attrs.partition) {
            Err(_) => {},
            Ok((sub, used)) => {
                lemma_decode_props_field_count(cols.skip(used), rest, partition);
            },
        }
    } else if partition == Some(PartitionKind::Exact) && p.stride is Some {
        lemma_decode_props_field_count(cols.skip(cols.len() as int), rest, partition);
    } else {
        lemma_decode_props_field_count(cols.skip(1), rest, partition);
    }
}

/// Round trip: a row that decodes successfully is reproduced exactly by
/// re-encoding the decoded record's fields in declaration order.
pub proof fn lemma_round_trip(cols: Seq<ColumnValue>, c: Container)
    ensures
        spec_decode(cols, c) matches Ok(fields) ==> spec_encode_fields(fields) == cols,
{
    lemma_decode_props_encode(cols, c.props@, c.attrs.partition);
    if spec_decode(cols, c) is Ok {
        assert(cols.take(cols.len() as int) =~= cols);
    }
}

/// Under no partition kind every property consumes exactly one column, so a
/// range decode needs exactly one column per property and can only fail for
/// want of columns or on a conversion.
pub proof fn lemma_plain_decode(cols: Seq<ColumnValue>, props: Seq<Property>)
    ensures
        cols.len() >= props.len() ==> match spec_decode_props(cols, props, None) {
            Ok((fields, used)) => used == props.len() && fields.len() == props.len(),
            Err(e) => e == DecodeError::TypeMismatch,
        },
        (cols.len() >= props.len() && forall|i: int|
            0 <= i < props.len() ==> column_matches((#[trigger] props[i]).ty, cols[i]))
            ==> spec_decode_props(cols, props, None) is Ok,
    decreases props,
{
    if props.len() == 0 {
        return;
    }
    let rest = props.drop_first();
    if cols.len() > 0 && column_matches(props[0].ty, cols[0]) {
        lemma_plain_decode(cols.skip(1), rest);
        if cols.len() >= props.len() {
            assert forall|i: int|
                0 <= i < rest.len() && column_matches((props[i + 1]).ty, cols[i + 1]) implies
                column_matches((#[trigger] rest[i]).ty, cols.skip(1)[i]) by {
                assert(rest[i] == props[i + 1]);
                assert(cols.skip(1)[i] == cols[i + 1]);
            }
        }
    } else {
        lemma_plain_decode(cols.skip(1), rest);
    }
}

/// A container without a partition kind accepts exactly the rows with one
/// column per property: a row of exactly that many columns never fails on
/// column count, a longer row is rejected as too long before any column
/// converts, a shorter one as too short.
pub proof fn lemma_none_partition_column_count(cols: Seq<ColumnValue>, c: Container)
    requires
        c.attrs.partition is None,
    ensures
        cols.len() > c.props@.len() ==> spec_decode(cols, c) == Err::<Seq<SpecFieldValue>, _>(
            DecodeError::RowTooLong,
        ),
        cols.len() < c.props@.len() ==> spec_decode(cols, c) == Err::<Seq<SpecFieldValue>, _>(
            DecodeError::RowTooShort,
        ),
        cols.len() == c.props@.len() ==> (spec_decode(cols, c) is Ok || spec_decode(cols, c)
            == Err::<Seq<SpecFieldValue>, _>(DecodeError::TypeMismatch)),
        (cols.len() == c.props@.len() && forall|i: int|
            0 <= i < c.props@.len() ==> column_matches((#[trigger] c.props@[i]).ty, cols[i]))
            ==> spec_decode(cols, c) is Ok,
{
    lemma_plain_decode(cols, c.props@);
}

/// A fixed-stride container of one sequence property accepts exactly the
/// rows whose length the stride divides evenly, decoding a row of length
/// `s * k` to exactly `k` elements of `s` columns each, and rejects every
/// other length with a stride mismatch.
pub proof fn lemma_exact_stride(cols: Seq<ColumnValue>, c: Container, s: usize)
    requires
        c.attrs.partition == Some(PartitionKind::Exact),
        c.props@.len() == 1,
        c.props@[0].stride == Some(s),
        1 <= s,
    ensures
        cols.len() as int % (s as int) != 0 ==> spec_decode(cols, c) == Err::<
            Seq<SpecFieldValue>,
            _,
        >(DecodeError::StrideMismatch),
        (cols.len() as int % (s as int) == 0 && all_columns_match(c.props@[0].ty, cols))
            ==> match spec_decode(cols, c) {
            Ok(fields) => {
                &&& fields.len() == 1
                &&& fields[0] matches SpecFieldValue::Elements(elems)
                &&& elems.len() * s == cols.len()
                &&& forall|i: int| 0 <= i < elems.len() ==> (#[trigger] elems[i]).len() == s
            },
            Err(_) => false,
        },
        (cols.len() as int % (s as int) == 0 && !all_columns_match(c.props@[0].ty, cols))
            ==> spec_decode(cols, c) == Err::<Seq<SpecFieldValue>, _>(DecodeError::TypeMismatch),
{
    let props = c.props@;
    let rest = props.drop_first();
    assert(rest =~= Seq::<Property>::empty());
    if cols.len() as int % (s as int) == 0 && all_columns_match(c.props@[0].ty, cols) {
        lemma_chunks_of_even(cols, s as int);
        let chunks = spec_chunks(cols, s as int);
        assert(spec_decode_props(cols.skip(cols.len() as int), rest, c.attrs.partition) == Ok::<
            _,
            DecodeError,
        >((Seq::<SpecFieldValue>::empty(), 0int)));
        let fields = seq![SpecFieldValue::Elements(chunks)];
        assert(seq![SpecFieldValue::Elements(chunks)] + Seq::<SpecFieldValue>::empty()
            =~= fields);
        assert(spec_decode_props(cols, props, c.attrs.partition) == Ok::<_, DecodeError>(
            (fields, cols.len() as int),
        ));
    }
}

/// A `Split` container of one nested two-column container followed by one
/// plain property decodes a three-column row with the first two columns
/// going to the nested container and the last to the plain property.
pub proof fn lemma_split_two_then_one(cols: Seq<ColumnValue>, c: Container)
    requires
        c.attrs.partition == Some(PartitionKind::Split),
        c.props@.len() == 2,
        c.props@[0].split is Some,
        ({
            let n = *c.props@[0].split->0;
            &&& n.attrs.partition is None
            &&& n.props@.len() == 2
            &&& column_matches(n.props@[0].ty, cols[0])
            &&& column_matches(n.props@[1].ty, cols[1])
        }),
        c.props@[1].split is None,
        cols.len() == 3,
        column_matches(c.props@[1].ty, cols[2]),
    ensures
        spec_decode(cols, c) == Ok::<_, DecodeError>(
            seq![
                SpecFieldValue::Nested(
                    seq![SpecFieldValue::Column(cols[0]), SpecFieldValue::Column(cols[1])],
                ),
                SpecFieldValue::Column(cols[2]),
            ],
        ),
{
    let n = *c.props@[0].split->0;
    let np = n.props@;
    assert(np.drop_first().drop_first() =~= Seq::<Property>::empty());
    assert(cols.skip(1)[0] == cols[1]);
    assert(cols.skip(1).skip(1) =~= cols.skip(2));
    assert(spec_decode_props(cols.skip(1).skip(1), np.drop_first().drop_first(), n.attrs.partition)
        == Ok::<_, DecodeError>((Seq::<SpecFieldValue>::empty(), 0int)));
    let sub = seq![SpecFieldValue::Column(cols[0]), SpecFieldValue::Column(cols[1])];
    assert(seq![SpecFieldValue::Column(cols[1])] + Seq::<SpecFieldValue>::empty() =~= seq![
        SpecFieldValue::Column(cols[1]),
    ]);
    assert(spec_decode_props(cols.skip(1), np.drop_first(), n.attrs.partition) == Ok::<
        _,
        DecodeError,
    >((seq![SpecFieldValue::Column(cols[1])], 1int))) by {
        assert(np.drop_first()[0] == np[1]);
        assert(seq![SpecFieldValue::Column(cols[1])] + Seq::<SpecFieldValue>::empty() =~= seq![
            SpecFieldValue::Column(cols[1]),
        ]);
    }
    assert(spec_decode_props(cols, np, n.attrs.partition) == Ok::<_, DecodeError>((sub, 2int))) by {
        assert(seq![SpecFieldValue::Column(cols[0])] + seq![SpecFieldValue::Column(cols[1])]
            =~= sub);
    }
    let rest = c.props@.drop_first();
    assert(rest[0] == c.props@[1]);
    assert(rest.drop_first() =~= Seq::<Property>::empty());
    assert(cols.skip(2)[0] == cols[2]);
    assert(cols.skip(2).skip(1) =~= cols.skip(3));
    assert(spec_decode_props(cols.skip(3), rest.drop_first(), c.attrs.partition) == Ok::<
        _,
        DecodeError,
    >((Seq::<SpecFieldValue>::empty(), 0int)));
    assert(spec_decode_props(cols.skip(2), rest, c.attrs.partition) == Ok::<_, DecodeError>(
        (seq![SpecFieldValue::Column(cols[2])], 1int),
    )) by {
        assert(seq![SpecFieldValue::Column(cols[2])] + Seq::<SpecFieldValue>::empty() =~= seq![
            SpecFieldValue::Column(cols[2]),
        ]);
    }
    assert(seq![
        SpecFieldValue::Nested(sub),
    ] + seq![SpecFieldValue::Column(cols[2])] =~= seq![
        SpecFieldValue::Nested(sub),
        SpecFieldValue::Column(cols[2]),
    ]);
}

/// Whether a stored column value converts to the type `ty`.
pub fn column_has_type(ty: ColumnType, v: ColumnValue) -> (r: bool)
    ensures
        r == column_matches(ty, v),
{
    match (ty, v) {
        (ColumnType::Int, ColumnValue::Int(_)) => true,
        (ColumnType::Boolean, ColumnValue::Boolean(_)) => true,
        _ => false,
    }
}

/// Carves every column of `row` from `start` on into elements of `s`
/// columns, converting each column to `ty`.
fn decode_elements(row: &Vec<ColumnValue>, start: usize, s: usize, ty: ColumnType) -> (r: Result<
    Vec<Vec<ColumnValue>>,
    DecodeError,
>)
    requires
        1 <= s,
        start <= row@.len(),
        (row@.len() - start) % (s as int) == 0,
    ensures
        match r {
            Ok(elems) => {
                &&& all_columns_match(ty, row@.skip(start as int))
                &&& Seq::new(elems@.len(), |i: int| elems@[i]@) == spec_chunks(
                    row@.skip(start as int),
                    s as int,
                )
            },
            Err(e) => {
                &&& e == DecodeError::TypeMismatch
                &&& !all_columns_match(ty, row@.skip(start as int))
            },
        },
    decreases row@.len() - start,
{
    if start == row.len() {
        proof {
            assert(row@.skip(start as int) =~= Seq::<ColumnValue>::empty());
        }
        return Ok(Vec::new());
    }
    proof {
        assert(row@.len() - start >= s) by (nonlinear_arith)
            requires
                (row@.len() - start) % (s as int) == 0,
                row@.len() - start > 0,
                s >= 1,
        ;
    }
    let mut elem: Vec<ColumnValue> = Vec::new();
    let mut j: usize = 0;
    while j < s
        invariant
            j <= s,
            row.len() == row@.len(),
            s <= row@.len() - start,
            elem@ == row@.subrange(start as int, start + j),
            all_columns_match(ty, row@.subrange(start as int, start + j)),
        decreases s - j,
    {
        let v = row[start + j];
        if !column_has_type(ty, v) {
            proof {
                let cols = row@.skip(start as int);
                assert(cols[j as int] == v);
                assert(!all_columns_match(ty, cols));
            }
            return Err(DecodeError::TypeMismatch);
        }
        elem.push(v);
        proof {
            assert(elem@ =~= row@.subrange(start as int, start + j + 1));
            assert(all_columns_match(ty, row@.subrange(start as int, start + j + 1)));
        }
        j += 1;
    }
    proof {
        assert((row@.len() - (start + s)) % (s as int) == 0) by (nonlinear_arith)
            requires
                (row@.len() - start) % (s as int) == 0,
                s >= 1,
        ;
    }
    match decode_elements(row, start + s, s, ty) {
        Err(e) => {
            proof {
                let cols = row@.skip(start as int);
                let tail = row@.skip(start + s as int);
                assert(!all_columns_match(ty, tail));
                let k = choose|k: int| 0 <= k < tail.len() && !column_matches(ty, tail[k]);
                assert(cols[k + s] == tail[k]);
                assert(!all_columns_match(ty, cols));
            }
            Err(e)
        },
        Ok(mut rest) => {
            proof {
                let cols = row@.skip(start as int);
                let tail = row@.skip(start + s as int);
                assert(cols.skip(s as int) =~= tail);
                assert(cols.take(s as int) =~= elem@);
                assert forall|i: int| 0 <= i < cols.len() implies column_matches(
                    ty,
                    #[trigger] cols[i],
                ) by {
                    if i < s {
                        assert(cols[i] == row@.subrange(start as int, start + s as int)[i]);
                    } else {
                        assert(cols[i] == tail[i - s]);
                    }
                }
            }
            let ghost rest0 = rest@;
            rest.insert(0, elem);
            proof {
                let cols = row@.skip(start as int);
                let tail = row@.skip((start + s) as int);
                let chunks = spec_chunks(cols, s as int);
                assert(rest@.drop_first() =~= rest0);
                assert(Seq::new(rest0.len(), |i: int| rest0[i]@) == spec_chunks(
                    tail,
                    s as int,
                ));
                assert(Seq::new(rest@.len(), |i: int| rest@[i]@) =~= chunks) by {
                    if cols.len() <= s {
                        assert(cols.len() == s);
                        assert(tail.len() == 0);
                        assert(spec_chunks(tail, s as int) =~= Seq::<Seq<ColumnValue>>::empty());
                        assert(rest0.len() == 0);
                        assert(cols =~= elem@);
                        assert(chunks == seq![cols]);
                    } else {
                        assert(chunks == seq![cols.take(s as int)] + spec_chunks(
                            cols.skip(s as int),
                            s as int,
                        ));
                        assert(cols.take(s as int) =~= elem@);
                        assert(cols.skip(s as int) =~= tail);
                    }
                }
            }
            Ok(rest)
        },
    }
}

/// Decodes the properties of `c` from index `i` on, starting at column
/// `start` of the row; the exact semantics are those of
/// `spec_decode_props` on the corresponding suffixes.
fn decode_props(row: &Vec<ColumnValue>, start: usize, c: &Container, i: usize) -> (r: Result<
    (Vec<FieldValue>, usize),
    DecodeError,
>)
    requires
        start <= row@.len(),
        i <= c.props@.len(),
    ensures
        match r {
            Ok((fields, used)) => {
                &&& start + used <= row@.len()
                &&& spec_decode_props(
                    row@.skip(start as int),
                    c.props@.skip(i as int),
                    c.attrs.partition,
                ) == Ok::<_, DecodeError>((view_of_fields(fields@), used as int))
            },
            Err(e) => spec_decode_props(
                row@.skip(start as int),
                c.props@.skip(i as int),
                c.attrs.partition,
            ) == Err::<(Seq<SpecFieldValue>, int), _>(e),
        },
    decreases *c, c.props@.len() - i,
{
    let ghost cols = row@.skip(start as int);
    let ghost suffix = c.props@.skip(i as int);
    if i == c.props.len() {
        proof {
            assert(suffix =~= Seq::<Property>::empty());
            assert(view_of_fields(Seq::<FieldValue>::empty()) =~= Seq::<SpecFieldValue>::empty());
        }
        return Ok((Vec::new(), 0));
    }
    proof {
        assert(suffix[0] == c.props@[i as int]);
        assert(suffix.drop_first() =~= c.props@.skip(i + 1));
    }
    let p = &c.props[i];
    let is_split_part = match c.attrs.partition {
        Some(PartitionKind::Split) => true,
        _ => false,
    };
    let is_exact_part = match c.attrs.partition {
        Some(PartitionKind::Exact) => true,
        _ => false,
    };
    if is_split_part {
        match &p.split {
            None => {},
            Some(nested_box) => {
                let nested: &Container = &**nested_box;
                proof {
                    assert(nested.props@.skip(0) =~= nested.props@);
                }
                match decode_props(row, start, nested, 0) {
                    Err(e) => {
                        return Err(e);
                    },
                    Ok((sub, used)) => {
                        proof {
                            assert(row.len() == row@.len());
                        }
                        match decode_props(row, start + used, c, i + 1) {
                            Err(e) => {
                                proof {
                                    assert(row@.skip((start + used) as int) =~= cols.skip(
                                        used as int,
                                    ));
                                }
                                return Err(e);
                            },
                            Ok((mut tail, used_tail)) => {
                                proof {
                                    assert(row@.skip((start + used) as int) =~= cols.skip(
                                        used as int,
                                    ));
                                }
                                let ghost tail0 = tail@;
                                let rec = Record { fields: sub };
                                tail.insert(0, FieldValue::Nested(Box::new(rec)));
                                proof {
                                    assert(tail@.drop_first() =~= tail0);
                                    assert(view_of_fields(tail@) == seq![view_of_field(tail@[0])]
                                        + view_of_fields(tail0));
                                }
                                return Ok((tail, used + used_tail));
                            },
                        }
                    },
                }
            },
        }
    }
    if is_exact_part {
        match p.stride {
            None => {},
            Some(s) => {
                let remaining = row.len() - start;
                if s == 0 || remaining % s != 0 {
                    return Err(DecodeError::StrideMismatch);
                }
                match decode_elements(row, start, s, p.ty) {
                    Err(e) => {
                        return Err(e);
                    },
                    Ok(elems) => {
                        proof {
                            assert(row@.skip(row@.len() as int) =~= cols.skip(cols.len() as int));
                        }
                        match decode_props(row, row.len(), c, i + 1) {
                            Err(e) => {
                                return Err(e);
                            },
                            Ok((mut tail, used_tail)) => {
                                let ghost tail0 = tail@;
                                tail.insert(0, FieldValue::Elements(elems));
                                proof {
                                    assert(tail@.drop_first() =~= tail0);
                                    assert(view_of_fields(tail@) == seq![view_of_field(tail@[0])]
                                        + view_of_fields(tail0));
                                }
                                return Ok((tail, remaining + used_tail));
                            },
                        }
                    },
                }
            },
        }
    }
    if start == row.len() {
        return Err(DecodeError::RowTooShort);
    }
    let v = row[start];
    proof {
        assert(cols[0] == row@[start as int]);
    }
    if !column_has_type(p.ty, v) {
        return Err(DecodeError::TypeMismatch);
    }
    match decode_props(row, start + 1, c, i + 1) {
        Err(e) => {
            proof {
                assert(row@.skip((start + 1) as int) =~= cols.skip(1));
            }
            Err(e)
        },
        Ok((mut tail, used_tail)) => {
            proof {
                assert(row@.skip((start + 1) as int) =~= cols.skip(1));
            }
            let ghost tail0 = tail@;
            tail.insert(0, FieldValue::Column(v));
            proof {
                assert(tail@.drop_first() =~= tail0);
                assert(view_of_fields(tail@) == seq![view_of_field(tail@[0])] + view_of_fields(
                    tail0,
                ));
            }
            Ok((tail, 1 + used_tail))
        },
    }
}

/// Decodes one whole row into one container instance; the exact semantics,
/// including which error comes on which row, are those of `spec_decode`.
/// The validator must have accepted the descriptor tree before any row is
/// decoded.
pub fn decode(row: &Vec<ColumnValue>, c: &Container) -> (r: Result<Record, DecodeError>)
    requires
        container_tree_ok(*c),
    ensures
        match r {
            Ok(rec) => spec_decode(row@, *c) == Ok::<_, DecodeError>(rec@),
            Err(e) => spec_decode(row@, *c) == Err::<Seq<SpecFieldValue>, _>(e),
        },
{
    let part_is_none = match c.attrs.partition {
        None => true,
        Some(_) => false,
    };
    if part_is_none && row.len() > c.props.len() {
        return Err(DecodeError::RowTooLong);
    }
    if part_is_none && row.len() < c.props.len() {
        return Err(DecodeError::RowTooShort);
    }
    proof {
        assert(row@.skip(0) =~= row@);
        assert(c.props@.skip(0) =~= c.props@);
    }
    match decode_props(row, 0, c, 0) {
        Err(e) => Err(e),
        Ok((fields, used)) => {
            if used == row.len() {
                Ok(Record { fields })
            } else {
                Err(DecodeError::RowTooLong)
            }
        },
    }
}

} // verus!
