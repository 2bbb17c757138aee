//! Vectors of binary strings.
//!
//! The view of a vector, and of a builder, is the sequence of its rows. A row is either null or
//! a string of bytes.
use crate::column::{
    builder_append_null, builder_append_value, builder_finish, builder_finish_cloned, builder_len,
    builder_rows, builder_with_capacity, column_from_data, column_from_options, column_from_values,
    column_is_null, column_len, column_memory_size, column_null_count, column_rows, column_slice,
    column_to_data, column_value, data_is_binary, data_rows, data_type_text, has_binary_type,
    show_data_type, ByteColumn, ByteColumnBuilder,
};
use crate::error::Error;
use crate::json::{byte_numbers, json_is_null, json_null, json_numbers, json_of_bytes};
use crate::jsonb_text::{
    answers, json_fits, jsonb_answers, jsonb_bytes, jsonb_of, jsonb_read, lemma_small_json_fits,
    reads_back, to_jsonb,
};
use crate::rows::{
    byte_total, lemma_byte_total_concat, lemma_byte_total_prefix, lemma_null_total, null_total,
    rows_of, rows_of_slices, rows_of_vecs, stored_bytes,
};
use crate::text::{decimal, is_white_space, text_from_utf8_lossy, trim, utf8_lossy};
use crate::value::{unset_total, ConcreteDataType, Validity, Value, ValueRef};
use crate::vector_text::{
    law_lists_become_their_words, law_other_rows_stay, law_reader_decides, lemma_row_becomes_len,
    read_vector_row, reader_is_function, row_becomes, row_refused, size_message, written_list,
};
use arrow::array::ArrayData;
use serde_json::Value as JsonValue;
use std::sync::Arc;
use vstd::prelude::*;
use vstd::slice::slice_to_vec;
use vstd::string::*;
use vstd::utf8::{decode_utf8, encode_utf8, valid_utf8};

verus! {

/// What a binary vector can be made from.
pub trait BinaryRows: Sized {
    /// The rows.
    spec fn rows(&self) -> Seq<Option<Seq<u8>>>;

    /// Whether the rows can be stored as a binary array.
    spec fn storable(&self) -> bool;

    /// Stores the rows as a column.
    fn into_column(self) -> (column: ByteColumn)
        requires
            self.storable(),
        ensures
            column_rows(column) == self.rows(),
    ;
}

impl BinaryRows for ArrayData {
    open spec fn rows(&self) -> Seq<Option<Seq<u8>>> {
        data_rows(*self)
    }

    open spec fn storable(&self) -> bool {
        data_is_binary(*self)
    }

    fn into_column(self) -> (column: ByteColumn) {
        column_from_data(self)
    }
}

impl BinaryRows for Vec<Option<Vec<u8>>> {
    open spec fn rows(&self) -> Seq<Option<Seq<u8>>> {
        rows_of(self@)
    }

    open spec fn storable(&self) -> bool {
        byte_total(rows_of(self@)) <= i32::MAX
    }

    fn into_column(self) -> (column: ByteColumn) {
        column_from_options(self)
    }
}

impl<'a> BinaryRows for Vec<&'a [u8]> {
    open spec fn rows(&self) -> Seq<Option<Seq<u8>>> {
        rows_of_slices(self@)
    }

    open spec fn storable(&self) -> bool {
        byte_total(rows_of_slices(self@)) <= i32::MAX
    }

    fn into_column(self) -> (column: ByteColumn) {
        column_from_values(self)
    }
}

impl BinaryRows for Vec<Vec<u8>> {
    open spec fn rows(&self) -> Seq<Option<Seq<u8>>> {
        rows_of_vecs(self@)
    }

    open spec fn storable(&self) -> bool {
        byte_total(rows_of_vecs(self@)) <= i32::MAX
    }

    fn into_column(self) -> (column: ByteColumn) {
        let mut slices: Vec<&[u8]> = Vec::new();
        let mut i: usize = 0;
        while i < self.len()
            invariant
                i <= self@.len(),
                slices@.len() == i,
                forall|k: int| 0 <= k < i ==> (#[trigger] slices@[k])@ == self@[k]@,
            decreases self@.len() - i,
        {
            slices.push(self[i].as_slice());
            i += 1;
        }
        assert(rows_of_slices(slices@) =~= rows_of_vecs(self@));
        column_from_values(slices)
    }
}

/// A vector of binary strings.
#[derive(Debug, PartialEq)]
pub struct BinaryVector {
    column: ByteColumn,
}

impl View for BinaryVector {
    type V = Seq<Option<Seq<u8>>>;

    closed spec fn view(&self) -> Seq<Option<Seq<u8>>> {
        column_rows(self.column)
    }
}

/// A vector of whatever type, as far as a builder of binary vectors can tell it from another.
pub enum AnyVector {
    /// A binary vector.
    Binary(BinaryVector),
    /// A vector of another type, by the name of the type.
    Other { name: String },
}

/// Whether a row is null, JSON text or JSONB.
pub open spec fn row_is_json(row: Option<Seq<u8>>) -> bool {
    row matches Some(bytes) ==> jsonb_of(bytes) is Some
}

/// A row as JSONB: null stays null.
pub open spec fn json_row_of(row: Option<Seq<u8>>) -> Option<Seq<u8>> {
    match row {
        Some(bytes) => jsonb_of(bytes),
        None => None,
    }
}

/// Rows as JSONB.
pub open spec fn json_rows_of(rows: Seq<Option<Seq<u8>>>) -> Seq<Option<Seq<u8>>> {
    Seq::new(rows.len(), |i: int| json_row_of(rows[i]))
}

/// Whether all rows before row `i` are null, JSON text or JSONB.
pub open spec fn json_before(rows: Seq<Option<Seq<u8>>>, i: int) -> bool {
    forall|j: int| 0 <= j < i ==> #[trigger] row_is_json(rows[j])
}

/// Whether a conversion to JSONB comes to an answer: every row that it gets to, up to the first
/// that is not JSON, has one, and where all rows are converted they can be stored.
pub open spec fn json_convertible(rows: Seq<Option<Seq<u8>>>) -> bool {
    &&& forall|i: int|
        0 <= i < rows.len() && json_before(rows, i) ==> (#[trigger] rows[i] matches Some(bytes)
            ==> jsonb_answers(bytes))
    &&& json_before(rows, rows.len() as int) ==> byte_total(json_rows_of(rows)) <= i32::MAX
}

/// What a conversion of rows to JSONB comes to.
pub open spec fn json_outcome(
    rows: Seq<Option<Seq<u8>>>,
    res: Result<Seq<Option<Seq<u8>>>, Error>,
) -> bool {
    match res {
        Ok(converted) => json_before(rows, rows.len() as int) && converted == json_rows_of(rows),
        Err(err) => exists|i: int|
            {
                &&& 0 <= i < rows.len()
                &&& json_before(rows, i)
                &&& !#[trigger] row_is_json(rows[i])
                &&& err matches Error::InvalidJson { value }
                &&& value@ == utf8_lossy(rows[i]->0)
            },
    }
}

/// Whether `jsonb` reads the JSONB of every row back, where there is room for the sizes in it.
pub open spec fn json_rows_read_back(rows: Seq<Option<Seq<u8>>>) -> bool {
    forall|i: int|
        0 <= i < rows.len() ==> (#[trigger] rows[i] matches Some(bytes) ==> (jsonb_read(
            bytes,
        ) matches Some(json) ==> reads_back(json)))
}

/// Whether JSONB has room for the sizes in every row: no text in it takes 2^28 bytes or more, and
/// no container in another has a size with bit 29 set.
pub open spec fn json_rows_fit(rows: Seq<Option<Seq<u8>>>) -> bool {
    forall|i: int|
        0 <= i < rows.len() ==> (#[trigger] rows[i] matches Some(bytes) ==> (jsonb_read(
            bytes,
        ) matches Some(json) ==> json_fits(json)))
}

/// Converting what has been converted changes nothing: where rows have been converted and there
/// was room for the sizes in them, the next conversion comes to an answer, and the answer is the
/// rows that it was given.
pub proof fn law_json_conversion_is_idempotent(
    rows: Seq<Option<Seq<u8>>>,
    converted: Seq<Option<Seq<u8>>>,
)
    requires
        json_convertible(rows),
        json_outcome(rows, Ok(converted)),
        json_rows_read_back(rows),
        json_rows_fit(rows),
    ensures
        json_convertible(converted),
        json_rows_of(converted) == converted,
        forall|res: Result<Seq<Option<Seq<u8>>>, Error>| #[trigger]
            json_outcome(converted, res) ==> res == Ok::<Seq<Option<Seq<u8>>>, Error>(converted),
{
    assert forall|i: int| 0 <= i < rows.len() implies json_row_of(converted[i]) == converted[i]
        && #[trigger] row_is_json(converted[i]) && (converted[i] matches Some(bytes)
        ==> jsonb_answers(bytes)) by {
        assert(row_is_json(rows[i]));
        assert(converted[i] == json_row_of(rows[i]));
    }
    assert(json_rows_of(converted) =~= converted) by {
        assert forall|i: int| 0 <= i < rows.len() implies json_row_of(converted[i])
            == converted[i] by {
            assert(row_is_json(converted[i]));
        }
    }
    assert forall|i: int| 0 <= i < converted.len() implies (#[trigger] converted[i] matches Some(
        bytes,
    ) ==> jsonb_answers(bytes)) by {
        assert(row_is_json(converted[i]));
    }
}

/// Rows whose JSONB takes less than 2^28 bytes each are rows for whose sizes there is room.
pub proof fn lemma_small_rows_fit(rows: Seq<Option<Seq<u8>>>, converted: Seq<Option<Seq<u8>>>)
    requires
        json_outcome(rows, Ok(converted)),
        json_rows_read_back(rows),
        forall|i: int|
            0 <= i < converted.len() ==> (#[trigger] converted[i] matches Some(bytes)
                ==> bytes.len() < 0x1000_0000),
    ensures
        json_rows_fit(rows),
{
    assert forall|i: int| 0 <= i < rows.len() implies (#[trigger] rows[i] matches Some(bytes) ==> (
    jsonb_read(bytes) matches Some(json) ==> json_fits(json))) by {
        assert(converted[i] == json_row_of(rows[i]));
        if rows[i] is Some && jsonb_read(rows[i]->0) is Some {
            lemma_small_json_fits(jsonb_read(rows[i]->0)->0);
        }
    }
}

/// A conversion to JSONB that succeeds keeps the rows apart: each row is null exactly where it was
/// null, and any other becomes the JSONB of the value that was read from it. Where there is room
/// for the sizes in it, the same value is read from it again.
pub proof fn law_json_conversion_keeps_rows(
    rows: Seq<Option<Seq<u8>>>,
    converted: Seq<Option<Seq<u8>>>,
    i: int,
)
    requires
        json_outcome(rows, Ok(converted)),
        json_rows_read_back(rows),
        0 <= i < rows.len(),
    ensures
        converted.len() == rows.len(),
        converted[i] is None <==> rows[i] is None,
        rows[i] matches Some(row) ==> {
            &&& jsonb_read(row) matches Some(json)
            &&& converted[i] == Some(jsonb_bytes(json))
            &&& json_fits(json) ==> jsonb_read(converted[i]->0) == Some(json)
        },
{
    assert(row_is_json(rows[i]));
    assert(converted[i] == json_row_of(rows[i]));
}

/// A conversion to JSONB fails exactly where some row that is not null cannot be read, with the
/// first such row, which the error shows as text.
pub proof fn law_json_conversion_fails_on_the_first_unread_row(
    rows: Seq<Option<Seq<u8>>>,
    res: Result<Seq<Option<Seq<u8>>>, Error>,
)
    requires
        json_outcome(rows, res),
    ensures
        res is Err <==> exists|i: int|
            0 <= i < rows.len() && (#[trigger] rows[i] matches Some(row) && jsonb_read(row) is None),
        res matches Err(err) ==> exists|i: int|
            {
                &&& 0 <= i < rows.len()
                &&& #[trigger] rows[i] matches Some(row)
                &&& jsonb_read(row) is None
                &&& err matches Error::InvalidJson { value }
                &&& value@ == utf8_lossy(row)
                &&& forall|j: int|
                    0 <= j < i ==> (#[trigger] rows[j] matches Some(earlier) ==> jsonb_read(
                        earlier,
                    ) is Some)
            },
{
    match res {
        Ok(_) => {
            assert forall|i: int| 0 <= i < rows.len() implies (#[trigger] rows[i] matches Some(row)
                ==> jsonb_read(row) is Some) by {
                assert(row_is_json(rows[i]));
            }
        },
        Err(err) => {
            let i = choose|i: int|
                {
                    &&& 0 <= i < rows.len()
                    &&& json_before(rows, i)
                    &&& !#[trigger] row_is_json(rows[i])
                    &&& err matches Error::InvalidJson { value }
                    &&& value@ == utf8_lossy(rows[i]->0)
                };
            assert(rows[i] is Some && jsonb_read(rows[i]->0) is None);
            assert forall|j: int| 0 <= j < i implies (#[trigger] rows[j] matches Some(earlier)
                ==> jsonb_read(earlier) is Some) by {
                assert(row_is_json(rows[j]));
            }
        },
    }
}

/// A conversion to JSONB comes to an answer where every row does and what they become can be
/// stored. Where it comes to one and every row can be read, every row does, and so can be stored.
pub proof fn law_json_conversion_answers_with_its_rows(
    rows: Seq<Option<Seq<u8>>>,
    encoded: Seq<Option<Seq<u8>>>,
)
    requires
        encoded.len() == rows.len(),
        forall|i: int|
            0 <= i < rows.len() ==> (#[trigger] rows[i] matches Some(row) ==> (jsonb_read(
                row,
            ) matches Some(json) ==> encoded[i] == Some(jsonb_bytes(json)))),
        forall|i: int| 0 <= i < rows.len() && #[trigger] rows[i] is None ==> encoded[i] is None,
    ensures
        (forall|i: int|
            0 <= i < rows.len() ==> (#[trigger] rows[i] matches Some(row) ==> jsonb_answers(row)))
            && byte_total(encoded) <= i32::MAX ==> json_convertible(rows),
        (forall|i: int|
            0 <= i < rows.len() ==> (#[trigger] rows[i] matches Some(row) ==> jsonb_read(
                row,
            ) is Some)) ==> (json_convertible(rows) <==> byte_total(encoded) <= i32::MAX && (
        forall|i: int|
            0 <= i < rows.len() ==> (#[trigger] rows[i] matches Some(row) ==> jsonb_answers(row)))),
        forall|i: int|
            {
                &&& 0 <= i < rows.len()
                &&& #[trigger] rows[i] matches Some(row)
                &&& jsonb_answers(row)
                &&& jsonb_read(row) is None
                &&& forall|j: int|
                    0 <= j < i ==> (#[trigger] rows[j] matches Some(earlier) ==> jsonb_answers(
                        earlier,
                    ))
            } ==> json_convertible(rows),
{
    if json_before(rows, rows.len() as int) {
        assert forall|i: int| 0 <= i < rows.len() implies json_rows_of(rows)[i] == encoded[i] by {
            assert(row_is_json(rows[i]));
        }
        assert(json_rows_of(rows) =~= encoded);
    }
    if forall|i: int|
        0 <= i < rows.len() ==> (#[trigger] rows[i] matches Some(row) ==> jsonb_read(row) is Some) {
        assert forall|i: int| 0 <= i < rows.len() implies #[trigger] row_is_json(rows[i]) by {
            assert(rows[i] is Some ==> jsonb_read(rows[i]->0) is Some);
        }
        assert forall|i: int| 0 <= i < rows.len() && json_convertible(rows) implies (
        #[trigger] rows[i] matches Some(row) ==> jsonb_answers(row)) by {
            assert(json_before(rows, i));
        }
    }
    assert forall|i: int|
        {
            &&& 0 <= i < rows.len()
            &&& #[trigger] rows[i] matches Some(row)
            &&& jsonb_answers(row)
            &&& jsonb_read(row) is None
            &&& forall|j: int|
                0 <= j < i ==> (#[trigger] rows[j] matches Some(earlier) ==> jsonb_answers(
                    earlier,
                ))
        } implies json_convertible(rows) by {
        assert(!row_is_json(rows[i]));
        assert forall|k: int| 0 <= k < rows.len() && json_before(rows, k) implies (
        #[trigger] rows[k] matches Some(bytes) ==> jsonb_answers(bytes)) by {
            assert(k <= i);
        }
    }
}

/// Conversion to JSONB goes row by row: two runs of rows convert together exactly where each
/// converts, and to the rows that they convert to one after the other.
pub proof fn law_json_conversion_joins(a: Seq<Option<Seq<u8>>>, b: Seq<Option<Seq<u8>>>)
    ensures
        json_before(a + b, (a + b).len() as int) <==> json_before(a, a.len() as int)
            && json_before(b, b.len() as int),
        json_rows_of(a + b) == json_rows_of(a) + json_rows_of(b),
{
    let both = a + b;
    assert(json_rows_of(both) =~= json_rows_of(a) + json_rows_of(b));
    if json_before(both, both.len() as int) {
        assert forall|i: int| 0 <= i < a.len() implies #[trigger] row_is_json(a[i]) by {
            assert(row_is_json(both[i]));
        }
        assert forall|i: int| 0 <= i < b.len() implies #[trigger] row_is_json(b[i]) by {
            assert(row_is_json(both[a.len() + i]));
        }
    }
    if json_before(a, a.len() as int) && json_before(b, b.len() as int) {
        assert forall|i: int| 0 <= i < both.len() implies #[trigger] row_is_json(both[i]) by {
            if i < a.len() {
                assert(row_is_json(a[i]));
            } else {
                assert(row_is_json(b[i - a.len()]));
            }
        }
    }
}

/// Decides on a row once it is known what it is as JSONB: that, or an error which shows the row
/// as text.
pub fn json_row(row: &[u8], encoded: Option<Vec<u8>>) -> (res: Result<Vec<u8>, Error>)
    ensures
        match encoded {
            Some(encoded) => res == Ok::<Vec<u8>, Error>(encoded),
            None => {
                &&& res matches Err(Error::InvalidJson { value })
                &&& value@ == utf8_lossy(row@)
                &&& valid_utf8(row@) ==> value@ == decode_utf8(row@)
            },
        },
{
    match encoded {
        Some(encoded) => Ok(encoded),
        None => Err(Error::InvalidJson { value: text_from_utf8_lossy(row) }),
    }
}

/// Whether a row may become the row `out` in a conversion to vectors of `dim` components.
pub open spec fn row_converts<F: Fn(&str) -> Option<[u8; 4]>>(
    parse: F,
    row: Option<Seq<u8>>,
    dim: nat,
    out: Option<Seq<u8>>,
) -> bool {
    match row {
        None => out is None,
        Some(row) => out matches Some(out) && row_becomes(parse, row, dim, out),
    }
}

/// Whether a row may become some row in a conversion to vectors of `dim` components.
pub open spec fn row_convertible<F: Fn(&str) -> Option<[u8; 4]>>(
    parse: F,
    row: Option<Seq<u8>>,
    dim: nat,
) -> bool {
    exists|out: Option<Seq<u8>>| row_converts(parse, row, dim, out)
}

/// What a conversion of rows to vectors of `dim` components may come to.
pub open spec fn vector_outcome<F: Fn(&str) -> Option<[u8; 4]>>(
    parse: F,
    rows: Seq<Option<Seq<u8>>>,
    dim: nat,
    res: Result<Seq<Option<Seq<u8>>>, Error>,
) -> bool {
    match res {
        Ok(converted) => {
            &&& converted.len() == rows.len()
            &&& forall|i: int|
                0 <= i < rows.len() ==> row_converts(parse, rows[i], dim, #[trigger] converted[i])
        },
        Err(err) => exists|i: int|
            {
                &&& 0 <= i < rows.len()
                &&& #[trigger] rows[i] is Some
                &&& row_refused(parse, rows[i]->0, dim)
                &&& err matches Error::InvalidVector { msg }
                &&& msg@ == size_message(4 * dim, rows[i]->0.len())
                &&& forall|j: int| 0 <= j < i ==> #[trigger] row_convertible(parse, rows[j], dim)
            },
    }
}

/// Whether a conversion of rows to vectors of `dim` components may succeed.
pub open spec fn vectors_possible<F: Fn(&str) -> Option<[u8; 4]>>(
    parse: F,
    rows: Seq<Option<Seq<u8>>>,
    dim: nat,
) -> bool {
    exists|converted: Seq<Option<Seq<u8>>>| vector_outcome(parse, rows, dim, Ok(converted))
}

/// Rows that have become vectors of `dim` components hold four bytes for each component of each
/// row that is not null.
pub proof fn lemma_vector_bytes<F: Fn(&str) -> Option<[u8; 4]>>(
    parse: F,
    rows: Seq<Option<Seq<u8>>>,
    dim: nat,
    converted: Seq<Option<Seq<u8>>>,
)
    requires
        vector_outcome(parse, rows, dim, Ok(converted)),
    ensures
        byte_total(converted) == 4 * dim * (rows.len() - null_total(rows)),
    decreases rows.len(),
{
    if rows.len() > 0 {
        let n = rows.len() - 1;
        let front = rows.drop_last();
        let converted_front = converted.drop_last();
        assert forall|i: int| 0 <= i < front.len() implies row_converts(
            parse,
            front[i],
            dim,
            #[trigger] converted_front[i],
        ) by {
            assert(row_converts(parse, rows[i], dim, converted[i]));
        }
        lemma_vector_bytes(parse, front, dim, converted_front);
        assert(row_converts(parse, rows[n], dim, converted[n]));
        lemma_null_total(front);
        let kept = front.len() - null_total(front);
        match rows[n] {
            Some(row) => {
                lemma_row_becomes_len(parse, row, dim, converted[n]->0);
                assert(4 * dim * (kept + 1) == 4 * dim * kept + 4 * dim) by (nonlinear_arith);
            },
            None => {},
        }
    } else {
        assert(4 * dim * 0 == 0) by (nonlinear_arith);
    }
}

/// Where the reader of components gives one answer for one text, a conversion to vectors has one
/// outcome: it either succeeds, always with the same rows, or always fails.
pub proof fn law_vector_conversion_is_determined<F: Fn(&str) -> Option<[u8; 4]>>(
    parse: F,
    rows: Seq<Option<Seq<u8>>>,
    dim: nat,
    converted: Seq<Option<Seq<u8>>>,
    res: Result<Seq<Option<Seq<u8>>>, Error>,
)
    requires
        reader_is_function(parse),
        vector_outcome(parse, rows, dim, Ok(converted)),
        vector_outcome(parse, rows, dim, res),
    ensures
        res == Ok::<Seq<Option<Seq<u8>>>, Error>(converted),
{
    match res {
        Ok(other) => {
            assert forall|i: int| 0 <= i < rows.len() implies converted[i] == other[i] by {
                assert(row_converts(parse, rows[i], dim, converted[i]));
                assert(row_converts(parse, rows[i], dim, other[i]));
                if rows[i] is Some {
                    law_reader_decides(parse, rows[i]->0, dim, converted[i]->0, other[i]->0);
                }
            }
            assert(converted =~= other);
        },
        Err(_) => {
            let i = choose|i: int|
                0 <= i < rows.len() && #[trigger] rows[i] is Some && row_refused(
                    parse,
                    rows[i]->0,
                    dim,
                );
            assert(row_converts(parse, rows[i], dim, converted[i]));
            law_reader_decides(parse, rows[i]->0, dim, converted[i]->0, converted[i]->0);
        },
    }
}

/// Conversion to vectors goes row by row: two runs of rows that convert do so together, to what
/// they convert to one after the other, and to nothing else where the reader gives one answer for
/// one text. No rows convert to no rows.
pub proof fn law_vector_conversion_joins<F: Fn(&str) -> Option<[u8; 4]>>(
    parse: F,
    a: Seq<Option<Seq<u8>>>,
    b: Seq<Option<Seq<u8>>>,
    dim: nat,
    ra: Seq<Option<Seq<u8>>>,
    rb: Seq<Option<Seq<u8>>>,
)
    requires
        vector_outcome(parse, a, dim, Ok(ra)),
        vector_outcome(parse, b, dim, Ok(rb)),
    ensures
        vector_outcome(parse, a + b, dim, Ok(ra + rb)),
        reader_is_function(parse) ==> forall|res: Result<Seq<Option<Seq<u8>>>, Error>| #[trigger]
            vector_outcome(parse, a + b, dim, res) ==> res == Ok::<Seq<Option<Seq<u8>>>, Error>(
                ra + rb,
            ),
        vector_outcome(parse, Seq::empty(), dim, Ok(Seq::empty())),
{
    assert forall|i: int| 0 <= i < (a + b).len() implies row_converts(
        parse,
        (a + b)[i],
        dim,
        #[trigger] (ra + rb)[i],
    ) by {
        if i < a.len() {
            assert(row_converts(parse, a[i], dim, ra[i]));
        } else {
            assert(row_converts(parse, b[i - a.len()], dim, rb[i - a.len()]));
        }
    }
    if reader_is_function(parse) {
        assert forall|res: Result<Seq<Option<Seq<u8>>>, Error>| #[trigger]
            vector_outcome(parse, a + b, dim, res) implies res == Ok::<
            Seq<Option<Seq<u8>>>,
            Error,
        >(ra + rb) by {
            law_vector_conversion_is_determined(parse, a + b, dim, ra + rb, res);
        }
    }
}

/// A conversion to vectors that succeeds keeps the rows apart: each row is null exactly where it
/// was null, any other has four bytes for each component, and a row that is no list in UTF-8 stays
/// as it is.
pub proof fn law_vector_conversion_keeps_rows<F: Fn(&str) -> Option<[u8; 4]>>(
    parse: F,
    rows: Seq<Option<Seq<u8>>>,
    dim: nat,
    converted: Seq<Option<Seq<u8>>>,
    i: int,
)
    requires
        vector_outcome(parse, rows, dim, Ok(converted)),
        0 <= i < rows.len(),
    ensures
        converted.len() == rows.len(),
        converted[i] is None <==> rows[i] is None,
        rows[i] is Some ==> converted[i]->0.len() == 4 * dim,
        rows[i] matches Some(row) ==> {
            let list = trim(decode_utf8(row));
            !(valid_utf8(row) && list.len() > 0 && list.first() == '[' && list.last() == ']')
                ==> converted[i] == rows[i]
        },
{
    assert(row_converts(parse, rows[i], dim, converted[i]));
    if rows[i] is Some {
        lemma_row_becomes_len(parse, rows[i]->0, dim, converted[i]->0);
        let row = rows[i]->0;
        let list = trim(decode_utf8(row));
        if !(valid_utf8(row) && list.len() > 0 && list.first() == '[' && list.last() == ']') {
            law_other_rows_stay(parse, row, dim, converted[i]->0);
        }
    }
}

/// A conversion to vectors reads lists: where a row is a list in UTF-8, white space aside, with as
/// many parts as a vector has components, and the reader gives a word for each of its parts, the
/// row becomes these words, each at the place of its part.
pub proof fn law_vector_conversion_reads_lists<F: Fn(&str) -> Option<[u8; 4]>>(
    parse: F,
    rows: Seq<Option<Seq<u8>>>,
    parts: Seq<Seq<char>>,
    converted: Seq<Option<Seq<u8>>>,
    i: int,
    before: Seq<char>,
    after: Seq<char>,
    words: Seq<[u8; 4]>,
)
    requires
        vector_outcome(parse, rows, parts.len(), Ok(converted)),
        0 <= i < rows.len(),
        rows[i] == Some(encode_utf8(before + written_list(parts) + after)),
        forall|k: int| 0 <= k < before.len() ==> is_white_space(before[k]),
        forall|k: int| 0 <= k < after.len() ==> is_white_space(after[k]),
        forall|k: int| 0 <= k < parts.len() ==> !(#[trigger] parts[k]).contains(','),
        !(parts.len() == 1 && trim(parts[0]).len() == 0),
        words.len() == parts.len(),
        forall|k: int, t: &str, word: Option<[u8; 4]>|
            0 <= k < parts.len() && t@ == trim(parts[k]) && #[trigger] call_ensures(
                parse,
                (t,),
                word,
            ) ==> word == Some(#[trigger] words[k]),
    ensures
        converted[i] is Some,
        converted[i]->0.len() == 4 * parts.len(),
        forall|k: int|
            0 <= k < parts.len() ==> converted[i]->0.subrange(4 * k, 4 * k + 4) == (
            #[trigger] words[k])@,
{
    assert(row_converts(parse, rows[i], parts.len(), converted[i]));
    law_lists_become_their_words(parse, before, parts, after, words, converted[i]->0);
}

/// A conversion to vectors that fails does so at a row that is not null and has not four bytes
/// for each component, and the error tells both sizes. It is no list, or one that was not read:
/// with another number of parts, or with a part that the reader refused. Every row before it is
/// null or may become a vector.
pub proof fn law_vector_conversion_fails_on_a_row_of_another_size<
    F: Fn(&str) -> Option<[u8; 4]>,
>(parse: F, rows: Seq<Option<Seq<u8>>>, dim: nat, err: Error)
    requires
        vector_outcome(parse, rows, dim, Err(err)),
    ensures
        exists|i: int|
            {
                &&& 0 <= i < rows.len()
                &&& #[trigger] rows[i] matches Some(row)
                &&& row.len() != 4 * dim
                &&& err matches Error::InvalidVector { msg }
                &&& msg@ == "Unexpected bytes size for vector value, expected "@ + decimal(4 * dim)
                    + ", got "@ + decimal(row.len())
                &&& row_refused(parse, row, dim)
                &&& forall|j: int|
                    0 <= j < i ==> (#[trigger] rows[j] matches Some(earlier) ==> exists|
                        bytes: Seq<u8>,
                    |
                        row_becomes(parse, earlier, dim, bytes))
            },
{
    let i = choose|i: int|
        {
            &&& 0 <= i < rows.len()
            &&& #[trigger] rows[i] is Some
            &&& row_refused(parse, rows[i]->0, dim)
            &&& err matches Error::InvalidVector { msg }
            &&& msg@ == size_message(4 * dim, rows[i]->0.len())
            &&& forall|j: int| 0 <= j < i ==> #[trigger] row_convertible(parse, rows[j], dim)
        };
    assert forall|j: int| 0 <= j < i implies (#[trigger] rows[j] matches Some(earlier) ==> exists|
        bytes: Seq<u8>,
    |
        row_becomes(parse, earlier, dim, bytes)) by {
        assert(row_convertible(parse, rows[j], dim));
        if rows[j] is Some {
            let out = choose|out: Option<Seq<u8>>| row_converts(parse, rows[j], dim, out);
            assert(row_becomes(parse, rows[j]->0, dim, out->0));
        }
    }
    assert(rows[i] is Some);
}

/// Lists of byte strings can be stored where they hold no more bytes than an offset reaches.
pub proof fn law_lists_can_be_stored(
    options: Vec<Option<Vec<u8>>>,
    slices: Vec<&[u8]>,
    vecs: Vec<Vec<u8>>,
)
    ensures
        options.rows() == rows_of(options@),
        options.storable() <==> byte_total(options.rows()) <= i32::MAX,
        slices.rows() == rows_of_slices(slices@),
        slices.storable() <==> byte_total(slices.rows()) <= i32::MAX,
        vecs.rows() == rows_of_vecs(vecs@),
        vecs.storable() <==> byte_total(vecs.rows()) <= i32::MAX,
{
}

/// The validity of a vector counts as many null rows as the vector does.
pub proof fn law_validity_counts_nulls(rows: Seq<Option<Seq<u8>>>)
    ensures
        unset_total(Seq::new(rows.len(), |i: int| rows[i] is Some)) == null_total(rows),
    decreases rows.len(),
{
    if rows.len() > 0 {
        let front = rows.drop_last();
        law_validity_counts_nulls(front);
        assert(Seq::new(rows.len(), |i: int| rows[i] is Some).drop_last() =~= Seq::new(
            front.len(),
            |i: int| front[i] is Some,
        ));
    }
}

/// A row that was added to a builder is read back at its place, and so are the rows before it,
/// whatever is added later.
pub proof fn law_added_rows_stay(
    rows: Seq<Option<Seq<u8>>>,
    row: Option<Seq<u8>>,
    later: Seq<Option<Seq<u8>>>,
)
    ensures
        (rows.push(row) + later)[rows.len() as int] == row,
        (rows.push(row) + later).take(rows.len() as int) == rows,
{
    assert((rows.push(row) + later).take(rows.len() as int) =~= rows);
}

/// A slice of a slice is a slice of the whole.
pub proof fn law_slices_compose(
    rows: Seq<Option<Seq<u8>>>,
    offset: int,
    length: int,
    inner_offset: int,
    inner_length: int,
)
    requires
        0 <= offset,
        0 <= length,
        offset + length <= rows.len(),
        0 <= inner_offset,
        0 <= inner_length,
        inner_offset + inner_length <= length,
    ensures
        rows.subrange(offset, offset + length).subrange(inner_offset, inner_offset + inner_length)
            == rows.subrange(offset + inner_offset, offset + inner_offset + inner_length),
{
    assert(rows.subrange(offset, offset + length).subrange(
        inner_offset,
        inner_offset + inner_length,
    ) =~= rows.subrange(offset + inner_offset, offset + inner_offset + inner_length));
}

/// An array that becomes a vector and then an array again keeps its rows, and what it has become
/// can become a vector in turn.
pub proof fn law_array_round_trip(array: ArrayData, vector: BinaryVector, again: ArrayData)
    requires
        array.storable(),
        vector@ == array.rows(),
        data_is_binary(again),
        data_rows(again) == vector@,
    ensures
        again.storable(),
        again.rows() == array.rows(),
{
}

impl BinaryVector {
    /// A vector with these rows.
    pub fn from<R: BinaryRows>(data: R) -> (vector: BinaryVector)
        requires
            data.storable(),
        ensures
            vector@ == data.rows(),
    {
        BinaryVector { column: data.into_column() }
    }

    /// A vector with the rows of an array, which must be binary.
    pub fn try_from_arrow_array(array: ArrayData) -> (res: Result<BinaryVector, Error>)
        ensures
            match res {
                Ok(vector) => data_is_binary(array) && vector@ == data_rows(array),
                Err(err) => {
                    &&& !data_is_binary(array)
                    &&& err matches Error::Conversion { from }
                    &&& from@ == data_type_text(array)
                },
            },
    {
        if has_binary_type(&array) {
            Ok(BinaryVector::from(array))
        } else {
            Err(Error::Conversion { from: show_data_type(&array) })
        }
    }

    /// A vector with these rows, none of which is null.
    pub fn from_slice(data: &[&[u8]]) -> (vector: BinaryVector)
        requires
            byte_total(rows_of_slices(data@)) <= i32::MAX,
            4 * (data@.len() + 64) <= isize::MAX,
        ensures
            vector@ == rows_of_slices(data@),
    {
        let mut builder = BinaryVectorBuilder::with_capacity(data.len());
        let mut i: usize = 0;
        assert(builder@ =~= rows_of_slices(data@).take(0));
        while i < data.len()
            invariant
                i <= data@.len(),
                byte_total(rows_of_slices(data@)) <= i32::MAX,
                builder@ == rows_of_slices(data@).take(i as int),
            decreases data@.len() - i,
        {
            proof {
                let rows = rows_of_slices(data@);
                lemma_byte_total_prefix(rows, i + 1);
                assert(rows.take(i + 1).drop_last() =~= rows.take(i as int));
                assert(rows.take(i as int).push(rows[i as int]) =~= rows.take(i + 1));
            }
            builder.push(Some(data[i]));
            i += 1;
        }
        assert(rows_of_slices(data@).take(i as int) =~= rows_of_slices(data@));
        builder.finish()
    }

    /// The type of the vector.
    pub fn data_type(&self) -> (data_type: ConcreteDataType)
        ensures
            data_type == ConcreteDataType::Binary,
    {
        ConcreteDataType::Binary
    }

    /// The name of the type of the vector.
    pub fn vector_type_name(&self) -> (name: String)
        ensures
            name@ == "BinaryVector"@,
    {
        "BinaryVector".to_owned()
    }

    /// The number of rows.
    pub fn len(&self) -> (n: usize)
        ensures
            n == self@.len(),
    {
        column_len(&self.column)
    }

    /// The rows in the form in which arrays are handed on.
    pub fn to_arrow_array(&self) -> (data: ArrayData)
        ensures
            data_is_binary(data),
            data_rows(data) == self@,
    {
        column_to_data(&self.column)
    }

    /// The same in a box.
    pub fn to_boxed_arrow_array(&self) -> (data: Box<ArrayData>)
        ensures
            data_is_binary(*data),
            data_rows(*data) == self@,
    {
        Box::new(column_to_data(&self.column))
    }

    /// Which rows hold a value.
    pub fn validity(&self) -> (validity: Validity)
        ensures
            validity@ == Seq::new(self@.len(), |i: int| self@[i] is Some),
    {
        let n = self.len();
        let mut bits: Vec<bool> = Vec::new();
        let mut i: usize = 0;
        while i < n
            invariant
                i <= n,
                n == self@.len(),
                bits@ == Seq::new(i as nat, |k: int| self@[k] is Some),
            decreases n - i,
        {
            bits.push(!column_is_null(&self.column, i));
            assert(bits@ =~= Seq::new((i + 1) as nat, |k: int| self@[k] is Some));
            i += 1;
        }
        Validity::from_bits(bits)
    }

    /// How many bytes the vector has allocated: no fewer than it takes to store its rows. How
    /// many more is the allocator's affair.
    pub fn memory_size(&self) -> (n: usize)
        ensures
            n >= stored_bytes(self@),
    {
        column_memory_size(&self.column)
    }

    /// How many rows are null.
    pub fn null_count(&self) -> (n: usize)
        ensures
            n == null_total(self@),
    {
        column_null_count(&self.column)
    }

    /// Whether a row is null.
    pub fn is_null(&self, row: usize) -> (null: bool)
        requires
            row < self@.len(),
        ensures
            null == (self@[row as int] is None),
    {
        column_is_null(&self.column, row)
    }

    /// Whether the vector is one value repeated: it is not stored so.
    pub fn is_const(&self) -> (constant: bool)
        ensures
            !constant,
    {
        false
    }

    /// Whether every row is null.
    pub fn only_null(&self) -> (only: bool)
        ensures
            only <==> forall|i: int| 0 <= i < self@.len() ==> self@[i] is None,
    {
        proof {
            lemma_null_total(self@);
        }
        self.null_count() == self.len()
    }

    /// The `length` rows that start at `offset`.
    pub fn slice(&self, offset: usize, length: usize) -> (part: Arc<BinaryVector>)
        requires
            offset + length <= self@.len(),
        ensures
            part@ == self@.subrange(offset as int, offset + length),
    {
        Arc::new(BinaryVector { column: column_slice(&self.column, offset, length) })
    }

    /// The bytes of a row, or `None` where the row is null.
    pub fn get_data(&self, idx: usize) -> (data: Option<&[u8]>)
        requires
            idx < self@.len(),
        ensures
            match data {
                Some(bytes) => self@[idx as int] == Some(bytes@),
                None => self@[idx as int] is None,
            },
    {
        if !column_is_null(&self.column, idx) {
            Some(column_value(&self.column, idx))
        } else {
            None
        }
    }

    /// A row as a value of its own.
    pub fn get(&self, index: usize) -> (value: Value)
        requires
            index < self@.len(),
        ensures
            match self@[index as int] {
                Some(row) => value matches Value::Binary(bytes) && bytes@ == row,
                None => value is Null,
            },
    {
        match self.get_data(index) {
            Some(bytes) => Value::Binary(slice_to_vec(bytes)),
            None => Value::Null,
        }
    }

    /// A row as a value that borrows it.
    pub fn get_ref(&self, index: usize) -> (value: ValueRef<'_>)
        requires
            index < self@.len(),
        ensures
            match self@[index as int] {
                Some(row) => value matches ValueRef::Binary(bytes) && bytes@ == row,
                None => value is Null,
            },
    {
        match self.get_data(index) {
            Some(bytes) => ValueRef::Binary(bytes),
            None => ValueRef::Null,
        }
    }

    /// All rows, in order.
    pub fn iter_data(&self) -> (rows: Vec<Option<&[u8]>>)
        ensures
            rows@.len() == self@.len(),
            forall|i: int|
                0 <= i < self@.len() ==> match #[trigger] rows@[i] {
                    Some(bytes) => self@[i] == Some(bytes@),
                    None => self@[i] is None,
                },
    {
        let n = self.len();
        let mut rows: Vec<Option<&[u8]>> = Vec::new();
        let mut i: usize = 0;
        while i < n
            invariant
                i <= n,
                n == self@.len(),
                rows@.len() == i,
                forall|k: int|
                    0 <= k < i ==> match #[trigger] rows@[k] {
                        Some(bytes) => self@[k] == Some(bytes@),
                        None => self@[k] is None,
                    },
            decreases n - i,
        {
            rows.push(self.get_data(i));
            i += 1;
        }
        rows
    }

    /// Each row as a JSON value: null, or the array of its bytes.
    pub fn serialize_to_json(&self) -> (res: Result<Vec<JsonValue>, Error>)
        ensures
            res matches Ok(values) && {
                &&& values@.len() == self@.len()
                &&& forall|i: int|
                    0 <= i < self@.len() ==> match self@[i] {
                        Some(row) => !json_is_null(#[trigger] values@[i]) && json_numbers(values@[i])
                            == byte_numbers(row),
                        None => json_is_null(values@[i]),
                    }
            },
    {
        let n = self.len();
        let mut values: Vec<JsonValue> = Vec::new();
        let mut i: usize = 0;
        while i < n
            invariant
                i <= n,
                n == self@.len(),
                values@.len() == i,
                forall|k: int|
                    0 <= k < i ==> match self@[k] {
                        Some(row) => !json_is_null(#[trigger] values@[k]) && json_numbers(values@[k])
                            == byte_numbers(row),
                        None => json_is_null(values@[k]),
                    },
            decreases n - i,
        {
            let value = match self.get_data(i) {
                None => json_null(),
                Some(bytes) => match json_of_bytes(bytes) {
                    Ok(value) => value,
                    Err(_) => {
                        return Err(Error::Serialize);
                    },
                },
            };
            values.push(value);
            i += 1;
        }
        Ok(values)
    }

    /// The vector whose rows are the JSONB of the rows of this one, which must be JSON text or
    /// JSONB. The first row that is neither is the error.
    pub fn convert_binary_to_json(&self) -> (res: Result<BinaryVector, Error>)
        requires
            json_convertible(self@),
        ensures
            match res {
                Ok(vector) => json_outcome(self@, Ok(vector@)) && json_rows_read_back(self@),
                Err(err) => json_outcome(self@, Err(err)),
            },
    {
        let n = self.len();
        let mut vector: Vec<Option<Vec<u8>>> = Vec::new();
        let mut i: usize = 0;
        while i < n
            invariant
                i <= n,
                n == self@.len(),
                json_convertible(self@),
                json_before(self@, i as int),
                rows_of(vector@) == json_rows_of(self@).take(i as int),
                json_rows_read_back(self@.take(i as int)),
            decreases n - i,
        {
            let ghost before = rows_of(vector@);
            let jsonb = match self.get_data(i) {
                Some(binary) => {
                    assert(self@[i as int] is Some);
                    match json_row(binary, to_jsonb(binary)) {
                        Ok(jsonb) => Some(jsonb),
                        Err(err) => {
                            assert(!row_is_json(self@[i as int]));
                            return Err(err);
                        },
                    }
                },
                None => None,
            };
            assert(row_is_json(self@[i as int]));
            vector.push(jsonb);
            proof {
                assert(rows_of(vector@) =~= before.push(json_row_of(self@[i as int])));
                let done = self@.take(i + 1);
                assert forall|k: int| 0 <= k < done.len() implies (#[trigger] done[k] matches Some(
                    bytes,
                ) ==> (jsonb_read(bytes) matches Some(json) ==> reads_back(json))) by {
                    if k < i {
                        assert(done[k] == self@.take(i as int)[k]);
                    }
                }
            }
            assert(rows_of(vector@) =~= json_rows_of(self@).take(i + 1));
            i += 1;
        }
        assert(json_rows_of(self@).take(i as int) =~= json_rows_of(self@));
        assert(self@.take(i as int) =~= self@);
        Ok(BinaryVector::from(vector))
    }

    /// Converts to JSONB where that comes to an answer, and gives `None` where it does not.
    pub fn try_convert_binary_to_json(&self) -> (res: Option<Result<BinaryVector, Error>>)
        ensures
            match res {
                None => !json_convertible(self@),
                Some(Ok(vector)) => json_convertible(self@) && json_outcome(self@, Ok(vector@))
                    && json_rows_read_back(self@),
                Some(Err(err)) => json_convertible(self@) && json_outcome(self@, Err(err)),
            },
    {
        let n = self.len();
        let ghost converted = json_rows_of(self@);
        let mut total: usize = 0;
        let mut fits: bool = true;
        let mut i: usize = 0;
        while i < n
            invariant
                i <= n,
                n == self@.len(),
                converted == json_rows_of(self@),
                json_before(self@, i as int),
                forall|k: int|
                    0 <= k < i ==> (#[trigger] self@[k] matches Some(bytes) ==> jsonb_answers(
                        bytes,
                    )),
                fits ==> total == byte_total(converted.take(i as int)) && total <= i32::MAX,
                !fits ==> byte_total(converted.take(i as int)) > i32::MAX,
            decreases n - i,
        {
            assert(converted.take(i + 1).drop_last() =~= converted.take(i as int));
            assert(converted.take(i + 1).last() == json_row_of(self@[i as int]));
            if let Some(binary) = self.get_data(i) {
                if !answers(binary) {
                    assert(self@[i as int] is Some);
                    return None;
                }
                match to_jsonb(binary) {
                    Some(encoded) => {
                        if fits && encoded.len() <= 0x7fff_ffff - total {
                            total += encoded.len();
                        } else {
                            fits = false;
                        }
                    },
                    None => {
                        assert(!row_is_json(self@[i as int]));
                        assert(json_convertible(self@));
                        return Some(self.convert_binary_to_json());
                    },
                }
            }
            assert(row_is_json(self@[i as int]));
            i += 1;
        }
        assert(converted.take(i as int) =~= converted);
        if fits {
            Some(self.convert_binary_to_json())
        } else {
            None
        }
    }

    /// The vector whose rows are those of this one as vectors of `dim` components, four bytes
    /// each. A row is text that `parse` reads component by component, or has the bytes already.
    /// The first row that is neither is the error.
    pub fn convert_binary_to_vector<F: Fn(&str) -> Option<[u8; 4]>>(&self, dim: u32, parse: F) -> (res:
        Result<BinaryVector, Error>)
        requires
            forall|t: &str| call_requires(parse, (t,)),
            vectors_possible(parse, self@, dim as nat) ==> 4 * dim * (self@.len() - null_total(
                self@,
            )) <= i32::MAX,
        ensures
            match res {
                Ok(vector) => vector_outcome(parse, self@, dim as nat, Ok(vector@)),
                Err(err) => vector_outcome(parse, self@, dim as nat, Err(err)),
            },
    {
        let n = self.len();
        let mut vector: Vec<Option<Vec<u8>>> = Vec::new();
        let mut i: usize = 0;
        while i < n
            invariant
                i <= n,
                n == self@.len(),
                forall|t: &str| call_requires(parse, (t,)),
                rows_of(vector@).len() == i,
                forall|k: int|
                    0 <= k < i ==> row_converts(
                        parse,
                        self@[k],
                        dim as nat,
                        #[trigger] rows_of(vector@)[k],
                    ),
            decreases n - i,
        {
            let ghost before = rows_of(vector@);
            let out = match self.get_data(i) {
                None => None,
                Some(binary) => match read_vector_row(binary, dim, &parse) {
                    Ok(bytes) => Some(bytes),
                    Err(err) => {
                        assert(self@[i as int] is Some);
                        assert forall|j: int| 0 <= j < i implies #[trigger] row_convertible(
                            parse,
                            self@[j],
                            dim as nat,
                        ) by {
                            assert(row_converts(parse, self@[j], dim as nat, before[j]));
                        }
                        return Err(err);
                    },
                },
            };
            vector.push(out);
            proof {
                let after = rows_of(vector@);
                assert(after.len() == i + 1);
                assert(forall|k: int| 0 <= k < i ==> #[trigger] after[k] == before[k]);
                assert(row_converts(parse, self@[i as int], dim as nat, after[i as int]));
            }
            i += 1;
        }
        proof {
            let converted = rows_of(vector@);
            lemma_vector_bytes(parse, self@, dim as nat, converted);
            assert(vector_outcome(parse, self@, dim as nat, Ok(converted)));
        }
        Ok(BinaryVector::from(vector))
    }
}

/// A binary vector that is still being filled.
pub struct BinaryVectorBuilder {
    builder: ByteColumnBuilder,
}

impl View for BinaryVectorBuilder {
    type V = Seq<Option<Seq<u8>>>;

    closed spec fn view(&self) -> Seq<Option<Seq<u8>>> {
        builder_rows(self.builder)
    }
}

impl BinaryVectorBuilder {
    /// A builder without rows, with room for `capacity` of them.
    pub fn with_capacity(capacity: usize) -> (builder: BinaryVectorBuilder)
        requires
            4 * (capacity + 64) <= isize::MAX,
        ensures
            builder@ == Seq::<Option<Seq<u8>>>::empty(),
    {
        BinaryVectorBuilder { builder: builder_with_capacity(capacity, 0) }
    }

    /// The type of the vector that is being built.
    pub fn data_type(&self) -> (data_type: ConcreteDataType)
        ensures
            data_type == ConcreteDataType::Binary,
    {
        ConcreteDataType::Binary
    }

    /// The number of rows so far.
    pub fn len(&self) -> (n: usize)
        ensures
            n == self@.len(),
    {
        builder_len(&self.builder)
    }

    /// Adds a row.
    pub fn push(&mut self, value: Option<&[u8]>)
        requires
            value matches Some(bytes) ==> byte_total(old(self)@) + bytes@.len() <= i32::MAX,
        ensures
            final(self)@ == old(self)@.push(
                match value {
                    Some(bytes) => Some(bytes@),
                    None => None,
                },
            ),
    {
        match value {
            Some(v) => builder_append_value(&mut self.builder, v),
            None => builder_append_null(&mut self.builder),
        }
    }

    /// Adds a null row.
    pub fn push_null(&mut self)
        ensures
            final(self)@ == old(self)@.push(None),
    {
        builder_append_null(&mut self.builder)
    }

    /// Adds a row with a value, which must be binary or null; the builder is unchanged where it
    /// is neither.
    pub fn try_push_value_ref(&mut self, value: ValueRef<'_>) -> (res: Result<(), Error>)
        requires
            value matches ValueRef::Binary(bytes) ==> byte_total(old(self)@) + bytes@.len()
                <= i32::MAX,
        ensures
            match value {
                ValueRef::Null => res is Ok && final(self)@ == old(self)@.push(None),
                ValueRef::Binary(bytes) => res is Ok && final(self)@ == old(self)@.push(
                    Some(bytes@),
                ),
                ValueRef::Int32(n) => {
                    &&& final(self)@ == old(self)@
                    &&& res matches Err(Error::CastType { msg })
                    &&& msg@ == crate::value::not_binary_message(n as int)
                },
            },
    {
        match value.as_binary() {
            Ok(Some(v)) => {
                builder_append_value(&mut self.builder, v);
                Ok(())
            },
            Ok(None) => {
                builder_append_null(&mut self.builder);
                Ok(())
            },
            Err(err) => Err(err),
        }
    }

    /// Adds a row with a value that is binary or null.
    pub fn push_value_ref(&mut self, value: ValueRef<'_>)
        requires
            !(value is Int32),
            value matches ValueRef::Binary(bytes) ==> byte_total(old(self)@) + bytes@.len()
                <= i32::MAX,
        ensures
            final(self)@ == old(self)@.push(
                match value {
                    ValueRef::Binary(bytes) => Some(bytes@),
                    _ => None,
                },
            ),
    {
        let _ = self.try_push_value_ref(value);
    }

    /// Adds the `length` rows of a vector that start at `offset`. The vector must be binary; the
    /// builder is unchanged where it is not.
    pub fn extend_slice_of(&mut self, vector: &AnyVector, offset: usize, length: usize) -> (res:
        Result<(), Error>)
        requires
            vector matches AnyVector::Binary(source) ==> offset + length <= source@.len(),
            vector matches AnyVector::Binary(source) ==> byte_total(old(self)@) + byte_total(
                source@.subrange(offset as int, offset + length),
            ) <= i32::MAX,
        ensures
            match *vector {
                AnyVector::Binary(source) => {
                    &&& res is Ok
                    &&& final(self)@ == old(self)@ + source@.subrange(
                        offset as int,
                        offset + length,
                    )
                },
                AnyVector::Other { name } => {
                    &&& final(self)@ == old(self)@
                    &&& res matches Err(Error::CastType { msg })
                    &&& msg@ == "Failed to cast vector from "@ + name@ + " to BinaryVector"@
                },
            },
    {
        match vector {
            AnyVector::Binary(source) => {
                let part = source.slice(offset, length);
                let ghost rows = part@;
                let ghost before = self@;
                let n = part.len();
                let mut i: usize = 0;
                assert(before + rows.take(0) =~= before);
                while i < n
                    invariant
                        i <= n,
                        n == part@.len(),
                        rows == part@,
                        self@ == before + rows.take(i as int),
                        byte_total(before) + byte_total(rows) <= i32::MAX,
                    decreases n - i,
                {
                    proof {
                        lemma_byte_total_prefix(rows, i + 1);
                        lemma_byte_total_concat(before, rows.take(i as int));
                        assert(rows.take(i + 1).drop_last() =~= rows.take(i as int));
                        assert(before + rows.take(i + 1) =~= (before + rows.take(i as int)).push(
                            rows[i as int],
                        ));
                    }
                    self.push(part.get_data(i));
                    i += 1;
                }
                assert(rows.take(i as int) =~= rows);
                Ok(())
            },
            AnyVector::Other { name } => {
                let mut msg = "Failed to cast vector from ".to_owned();
                msg.append(name.as_str());
                msg.append(" to BinaryVector");
                Err(Error::CastType { msg })
            },
        }
    }

    /// The vector of the rows so far; the builder is empty again.
    pub fn finish(&mut self) -> (vector: BinaryVector)
        ensures
            vector@ == old(self)@,
            final(self)@ == Seq::<Option<Seq<u8>>>::empty(),
    {
        BinaryVector { column: builder_finish(&mut self.builder) }
    }

    /// The vector of the rows so far, which the builder keeps.
    pub fn finish_cloned(&self) -> (vector: BinaryVector)
        ensures
            vector@ == self@,
    {
        BinaryVector { column: builder_finish_cloned(&self.builder) }
    }

    /// The vector of the rows so far, shared; the builder is empty again.
    pub fn to_vector(&mut self) -> (vector: Arc<BinaryVector>)
        ensures
            vector@ == old(self)@,
            final(self)@ == Seq::<Option<Seq<u8>>>::empty(),
    {
        Arc::new(self.finish())
    }

    /// The vector of the rows so far, shared, which the builder keeps.
    pub fn to_vector_cloned(&self) -> (vector: Arc<BinaryVector>)
        ensures
            vector@ == self@,
    {
        Arc::new(self.finish_cloned())
    }
}

} // verus!
