use vstd::prelude::*;
use crate::common::{f64_bits_spec, u64_to_f64_bits, u64_to_i64};

verus! {

/// The type of a fast-field column, which decides how its raw values decode.
#[derive(Clone, Copy, Debug, PartialEq, Eq, Structural, Hash)]
pub enum ColumnType {
    I64,
    U64,
    F64,
    Bytes,
    Str,
    Bool,
    IpAddr,
    DateTime,
}

/// A field value returned with a hit. A float is held as its IEEE-754 bit
/// pattern (`f64::from_bits` gives the number).
#[derive(Clone, Copy, Debug, PartialEq, Eq, Structural, Hash)]
pub enum FieldValue {
    U64(u64),
    I64(i64),
    F64Bits(u64),
}

/// The requested fast-field values of one hit, by field name, in the order
/// in which they were requested. A field without a value is left out.
#[derive(Clone, Debug)]
pub struct SearchFieldResults {
    pub doc_value_fields: Vec<(String, FieldValue)>,
}

} // verus!

verus! {

/// Why a top-hits request cannot be served.
#[derive(Clone, Copy, Debug, PartialEq, Eq, Structural)]
pub enum TopHitsError {
    /// The requested field at `field_index` has a column type whose values
    /// cannot be returned yet (text, bytes and others).
    UnsupportedFieldType { field_index: usize, column_type: ColumnType },
}

/// The column types whose raw values decode into a field value.
pub open spec fn supported(t: ColumnType) -> bool {
    t is U64 || t is I64 || t is F64
}

/// The value that a raw order-preserving u64 of a column of type `t` stands for.
pub open spec fn decode_spec(raw: u64, t: ColumnType) -> FieldValue {
    match t {
        ColumnType::I64 => FieldValue::I64((raw as int - 0x8000_0000_0000_0000) as i64),
        ColumnType::F64 => FieldValue::F64Bits(f64_bits_spec(raw)),
        _ => FieldValue::U64(raw),
    }
}

/// No name before index `i` equals the one at `i`.
pub open spec fn first_occurrence(names: Seq<Seq<char>>, i: int) -> bool {
    forall|j: int| 0 <= j < i ==> names[j] != names[i]
}

/// The requested fields that have a value, each with its decoded value, in
/// the order of the request; a field requested twice is given once.
pub open spec fn display_spec(names: Seq<Seq<char>>, types: Seq<ColumnType>, vals: Seq<Option<u64>>) -> Seq<
    (Seq<char>, FieldValue),
>
    decreases vals.len(),
{
    if vals.len() == 0 {
        Seq::empty()
    } else {
        let prev = display_spec(names.drop_last(), types.drop_last(), vals.drop_last());
        match vals.last() {
            Some(v) => if first_occurrence(names, vals.len() - 1) {
                prev.push((names.last(), decode_spec(v, types.last())))
            } else {
                prev
            },
            None => prev,
        }
    }
}

/// The names in the field values of a document are distinct, each of them a
/// requested name.
pub proof fn lemma_display_names_unique(names: Seq<Seq<char>>, types: Seq<ColumnType>, vals: Seq<Option<u64>>)
    requires
        names.len() == vals.len(),
        types.len() == vals.len(),
    ensures
        forall|p: int|
            0 <= p < display_spec(names, types, vals).len() ==> exists|k: int|
                0 <= k < names.len() && names[k] == (#[trigger] display_spec(names, types, vals)[p]).0,
        forall|p: int, q: int|
            0 <= p < q < display_spec(names, types, vals).len() ==> (#[trigger] display_spec(names, types, vals)[p]).0
                != (#[trigger] display_spec(names, types, vals)[q]).0,
    decreases vals.len(),
{
    if vals.len() > 0 {
        let n0 = names.drop_last();
        let prev = display_spec(n0, types.drop_last(), vals.drop_last());
        lemma_display_names_unique(n0, types.drop_last(), vals.drop_last());
        let r = display_spec(names, types, vals);
        assert forall|p: int| 0 <= p < prev.len() implies exists|k: int|
            0 <= k < names.len() - 1 && names[k] == (#[trigger] prev[p]).0 by {
            let k = choose|k: int| 0 <= k < n0.len() && n0[k] == prev[p].0;
            assert(names[k] == n0[k]);
        }
        if r.len() > prev.len() {
            assert(first_occurrence(names, vals.len() - 1));
            assert(r == prev.push((names.last(), decode_spec(vals.last()->0, types.last()))));
            assert forall|p: int| 0 <= p < r.len() implies exists|k: int|
                0 <= k < names.len() && names[k] == (#[trigger] r[p]).0 by {
                if p == prev.len() {
                    assert(names[names.len() - 1] == r[p].0);
                } else {
                    assert(r[p] == prev[p]);
                }
            }
            assert forall|p: int, q: int| 0 <= p < q < r.len() implies (#[trigger] r[p]).0 != (#[trigger] r[q]).0 by {
                assert(r[p] == prev[p]);
                if q == prev.len() {
                    let k = choose|k: int| 0 <= k < names.len() - 1 && names[k] == prev[p].0;
                    assert(names[k] != names[vals.len() - 1]);
                } else {
                    assert(r[q] == prev[q]);
                }
            }
        } else {
            assert(r == prev);
        }
    }
}

/// The names of a list of fields.
pub open spec fn names_view(names: Seq<String>) -> Seq<Seq<char>> {
    Seq::new(names.len(), |i: int| names[i]@)
}

impl SearchFieldResults {
    /// The field names and values, in order.
    pub open spec fn view_fields(&self) -> Seq<(Seq<char>, FieldValue)> {
        Seq::new(self.doc_value_fields@.len(), |i: int| (self.doc_value_fields@[i].0@, self.doc_value_fields@[i].1))
    }
}

/// Decodes a raw order-preserving value of a column of type `column_type`
/// into a field value.
pub fn decode_value(raw: u64, column_type: ColumnType) -> (r: FieldValue)
    requires
        supported(column_type),
    ensures
        r == decode_spec(raw, column_type),
{
    match column_type {
        ColumnType::I64 => FieldValue::I64(u64_to_i64(raw)),
        ColumnType::F64 => FieldValue::F64Bits(u64_to_f64_bits(raw)),
        _ => FieldValue::U64(raw),
    }
}

/// Checks that every column type can be decoded; the first one that cannot
/// is reported.
pub fn check_field_types(types: &Vec<ColumnType>) -> (r: Result<(), TopHitsError>)
    ensures
        r is Ok <==> forall|i: int| 0 <= i < types@.len() ==> supported(#[trigger] types@[i]),
        r matches Err(TopHitsError::UnsupportedFieldType { field_index, column_type }) ==> field_index
            < types@.len() && column_type == types@[field_index as int] && !supported(column_type)
            && forall|i: int| 0 <= i < field_index ==> supported(#[trigger] types@[i]),
{
    let mut i: usize = 0;
    while i < types.len()
        invariant
            i <= types@.len(),
            forall|j: int| 0 <= j < i ==> supported(#[trigger] types@[j]),
        decreases types@.len() - i,
    {
        let t = types[i];
        match t {
            ColumnType::U64 | ColumnType::I64 | ColumnType::F64 => {},
            _ => {
                return Err(TopHitsError::UnsupportedFieldType { field_index: i, column_type: t });
            },
        }
        i = i + 1;
    }
    Ok(())
}

/// Two strings hold the same characters.
pub fn same_name(a: &String, b: &String) -> (r: bool)
    ensures
        r == (a@ == b@),
{
    let x = a.as_str().as_bytes();
    let y = b.as_str().as_bytes();
    proof {
        vstd::utf8::encode_utf8_decode_utf8(a@);
        vstd::utf8::encode_utf8_decode_utf8(b@);
        assert(x@ == vstd::utf8::encode_utf8(a@));
        assert(y@ == vstd::utf8::encode_utf8(b@));
    }
    if x.len() != y.len() {
        return false;
    }
    let mut i: usize = 0;
    while i < x.len()
        invariant
            x@ == vstd::utf8::encode_utf8(a@),
            y@ == vstd::utf8::encode_utf8(b@),
            x@.len() == y@.len(),
            i <= x@.len(),
            forall|j: int| 0 <= j < i ==> x@[j] == y@[j],
        decreases x@.len() - i,
    {
        if x[i] != y[i] {
            return false;
        }
        i = i + 1;
    }
    proof {
        assert(x@ =~= y@);
    }
    true
}

/// Whether no name before index `i` equals the one at `i`.
fn is_first_occurrence(names: &Vec<String>, i: usize) -> (r: bool)
    requires
        i < names@.len(),
    ensures
        r == first_occurrence(names_view(names@), i as int),
{
    let mut j: usize = 0;
    while j < i
        invariant
            j <= i < names@.len(),
            forall|k: int| 0 <= k < j ==> names_view(names@)[k] != names_view(names@)[i as int],
        decreases i - j,
    {
        if same_name(&names[j], &names[i]) {
            proof {
                assert(names_view(names@)[j as int] == names@[j as int]@);
                assert(names_view(names@)[i as int] == names@[i as int]@);
            }
            return false;
        }
        j = j + 1;
    }
    true
}

/// Builds the requested field values of one document: each field with a
/// value, under its name, decoded by its column type; fields without a value
/// are left out, and a field requested twice is given once.
pub fn get_fields(names: &Vec<String>, types: &Vec<ColumnType>, values: &Vec<Option<u64>>) -> (r: SearchFieldResults)
    requires
        names@.len() == values@.len(),
        types@.len() == values@.len(),
        forall|i: int| 0 <= i < types@.len() ==> supported(#[trigger] types@[i]),
    ensures
        r.view_fields() == display_spec(names_view(names@), types@, values@),
        forall|p: int, q: int|
            0 <= p < q < r.view_fields().len() ==> (#[trigger] r.view_fields()[p]).0 != (#[trigger] r.view_fields()[q]).0,
{
    let mut out: Vec<(String, FieldValue)> = Vec::new();
    let mut i: usize = 0;
    while i < values.len()
        invariant
            i <= values@.len(),
            names@.len() == values@.len(),
            types@.len() == values@.len(),
            forall|j: int| 0 <= j < types@.len() ==> supported(#[trigger] types@[j]),
            (SearchFieldResults { doc_value_fields: out }).view_fields() == display_spec(
                names_view(names@).take(i as int),
                types@.take(i as int),
                values@.take(i as int),
            ),
        decreases values@.len() - i,
    {
        let ghost prev = (SearchFieldResults { doc_value_fields: out }).view_fields();
        proof {
            let n1 = names_view(names@).take(i + 1);
            let t1 = types@.take(i + 1);
            let v1 = values@.take(i + 1);
            assert(n1.drop_last() =~= names_view(names@).take(i as int));
            assert(t1.drop_last() =~= types@.take(i as int));
            assert(v1.drop_last() =~= values@.take(i as int));
            assert(v1.last() == values@[i as int]);
            assert(n1.last() == names@[i as int]@);
            assert(t1.last() == types@[i as int]);
            let nv = names_view(names@);
            assert(n1[i as int] == nv[i as int]);
            if first_occurrence(nv, i as int) {
                assert forall|j: int| 0 <= j < i implies n1[j] != n1[i as int] by {
                    assert(n1[j] == nv[j]);
                }
            }
            if first_occurrence(n1, i as int) {
                assert forall|j: int| 0 <= j < i implies nv[j] != nv[i as int] by {
                    assert(n1[j] == nv[j]);
                    assert(n1[j] != n1[i as int]);
                }
            }
        }
        match values[i] {
            Some(raw) if is_first_occurrence(names, i) => {
                let v = decode_value(raw, types[i]);
                let name = names[i].clone();
                out.push((name, v));
                proof {
                    assert((SearchFieldResults { doc_value_fields: out }).view_fields() =~= prev.push(
                        (names@[i as int]@, v),
                    ));
                }
            },
            _ => {},
        }
        i = i + 1;
    }
    proof {
        assert(names_view(names@).take(i as int) =~= names_view(names@));
        assert(types@.take(i as int) =~= types@);
        assert(values@.take(i as int) =~= values@);
        lemma_display_names_unique(names_view(names@), types@, values@);
    }
    SearchFieldResults { doc_value_fields: out }
}

} // verus!
