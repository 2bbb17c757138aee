//! Binary columns as the `arrow` crate stores them.
//!
//! Every item here that stands for a function of `arrow` is trusted: its contract is believed.
//! The contracts speak of one thing only, the rows that a column holds or that a builder has
//! taken so far.
use crate::rows::{byte_total, null_total, rows_of, rows_of_slices, stored_bytes};
use arrow::array::{Array, ArrayBuilder, ArrayData, BinaryArray, BinaryBuilder};
use arrow::datatypes::DataType;
use vstd::prelude::*;

verus! {

/// `arrow::array::ArrayData`, in which arrays of every kind are handed from one owner to another.
#[verifier::external_type_specification]
#[verifier::external_body]
pub struct ExArrayData(ArrayData);

/// A finished, immutable column of byte strings: `arrow::array::BinaryArray`.
#[verifier::external_body]
#[derive(Debug, PartialEq)]
pub struct ByteColumn {
    array: BinaryArray,
}

/// A column of byte strings that is still being filled: `arrow::array::BinaryBuilder`. Values
/// enter it whole, through the functions of this module alone.
#[verifier::external_body]
pub struct ByteColumnBuilder {
    builder: BinaryBuilder,
}

/// The rows that a column holds.
pub uninterp spec fn column_rows(column: ByteColumn) -> Seq<Option<Seq<u8>>>;

/// The rows that a builder has taken since it was made or last emptied.
pub uninterp spec fn builder_rows(builder: ByteColumnBuilder) -> Seq<Option<Seq<u8>>>;

/// Whether array data is that of a binary array: its data type is `DataType::Binary`.
pub uninterp spec fn data_is_binary(data: ArrayData) -> bool;

/// The data type of array data as `{:?}` shows it.
pub uninterp spec fn data_type_text(data: ArrayData) -> Seq<char>;

/// The rows of array data that is that of a binary array.
pub uninterp spec fn data_rows(data: ArrayData) -> Seq<Option<Seq<u8>>>;

/// `ArrayData::data_type`, compared with `DataType::Binary`.
#[verifier::external_body]
pub(crate) fn has_binary_type(data: &ArrayData) -> (yes: bool)
    ensures
        yes == data_is_binary(*data),
{
    data.data_type() == &DataType::Binary
}

/// `ArrayData::data_type`, as its `Debug` shows it.
#[verifier::external_body]
pub(crate) fn show_data_type(data: &ArrayData) -> (text: String)
    ensures
        text@ == data_type_text(*data),
{
    format!("{:?}", data.data_type())
}

/// `BinaryArray::from(ArrayData)`: the array has the rows of the data. It panics on data of any
/// other type, which is left out.
#[verifier::external_body]
pub(crate) fn column_from_data(data: ArrayData) -> (column: ByteColumn)
    requires
        data_is_binary(data),
    ensures
        column_rows(column) == data_rows(data),
{
    ByteColumn { array: BinaryArray::from(data) }
}

/// `Array::to_data` on a `BinaryArray`: the data of a binary array with the same rows.
#[verifier::external_body]
pub(crate) fn column_to_data(column: &ByteColumn) -> (data: ArrayData)
    ensures
        data_is_binary(data),
        data_rows(data) == column_rows(*column),
{
    column.array.to_data()
}

/// `BinaryArray::from_iter` over optional values: one row for each item, in order, null where
/// the item is `None`. It panics where the values hold more bytes than an `i32` offset reaches.
#[verifier::external_body]
pub(crate) fn column_from_options(data: Vec<Option<Vec<u8>>>) -> (column: ByteColumn)
    requires
        byte_total(rows_of(data@)) <= i32::MAX,
    ensures
        column_rows(column) == rows_of(data@),
{
    ByteColumn { array: BinaryArray::from_iter(data) }
}

/// `BinaryArray::from_iter_values`: one row for each item, in order, none of them null. It
/// panics where the values hold more bytes than an `i32` offset reaches.
#[verifier::external_body]
pub(crate) fn column_from_values(data: Vec<&[u8]>) -> (column: ByteColumn)
    requires
        byte_total(rows_of_slices(data@)) <= i32::MAX,
    ensures
        column_rows(column) == rows_of_slices(data@),
{
    ByteColumn { array: BinaryArray::from_iter_values(data) }
}

/// `Array::len`: the number of rows.
#[verifier::external_body]
pub(crate) fn column_len(column: &ByteColumn) -> (n: usize)
    ensures
        n == column_rows(*column).len(),
{
    column.array.len()
}

/// `Array::get_buffer_memory_size`: how many bytes the buffers of offsets, of values and, where
/// there is one, of null bits have allocated. Each has room for what the rows need of it. How
/// much more it has is the allocator's affair, and that of the array which this one may be a
/// part of.
#[verifier::external_body]
pub(crate) fn column_memory_size(column: &ByteColumn) -> (n: usize)
    ensures
        n >= stored_bytes(column_rows(*column)),
{
    column.array.get_buffer_memory_size()
}

/// `Array::null_count`: how many rows are null.
#[verifier::external_body]
pub(crate) fn column_null_count(column: &ByteColumn) -> (n: usize)
    ensures
        n == null_total(column_rows(*column)),
{
    column.array.null_count()
}

/// `Array::is_null`: whether the row is null. It may panic on a row beyond the last.
#[verifier::external_body]
pub(crate) fn column_is_null(column: &ByteColumn, row: usize) -> (null: bool)
    requires
        row < column_rows(*column).len(),
    ensures
        null == (column_rows(*column)[row as int] is None),
{
    column.array.is_null(row)
}

/// `BinaryArray::value`: the bytes of a row that is not null. It panics on a row beyond the last.
#[verifier::external_body]
pub(crate) fn column_value(column: &ByteColumn, row: usize) -> (bytes: &[u8])
    requires
        row < column_rows(*column).len(),
        column_rows(*column)[row as int] is Some,
    ensures
        Some(bytes@) == column_rows(*column)[row as int],
{
    column.array.value(row)
}

/// `BinaryArray::slice`: the `length` rows that start at `offset`. It panics where they are not
/// all there.
#[verifier::external_body]
pub(crate) fn column_slice(column: &ByteColumn, offset: usize, length: usize) -> (part: ByteColumn)
    requires
        offset + length <= column_rows(*column).len(),
    ensures
        column_rows(part) == column_rows(*column).subrange(offset as int, offset + length),
{
    ByteColumn { array: column.array.slice(offset, length) }
}

/// `BinaryBuilder::with_capacity`: a builder without rows. It panics where the offsets of
/// `capacity` rows need more bytes than an allocation may have.
#[verifier::external_body]
pub(crate) fn builder_with_capacity(capacity: usize, data_capacity: usize) -> (builder:
    ByteColumnBuilder)
    requires
        4 * (capacity + 64) <= isize::MAX,
        data_capacity + 256 <= isize::MAX,
    ensures
        builder_rows(builder) == Seq::<Option<Seq<u8>>>::empty(),
{
    ByteColumnBuilder { builder: BinaryBuilder::with_capacity(capacity, data_capacity) }
}

/// `ArrayBuilder::len` on a `BinaryBuilder`: the number of rows taken.
#[verifier::external_body]
pub(crate) fn builder_len(builder: &ByteColumnBuilder) -> (n: usize)
    ensures
        n == builder_rows(*builder).len(),
{
    builder.builder.len()
}

/// `BinaryBuilder::append_value`: one more row with these bytes. It panics where the values
/// then hold more bytes than an `i32` offset reaches.
#[verifier::external_body]
pub(crate) fn builder_append_value(builder: &mut ByteColumnBuilder, value: &[u8])
    requires
        byte_total(builder_rows(*old(builder))) + value@.len() <= i32::MAX,
    ensures
        builder_rows(*final(builder)) == builder_rows(*old(builder)).push(Some(value@)),
{
    builder.builder.append_value(value)
}

/// `BinaryBuilder::append_null`: one more row, which is null.
#[verifier::external_body]
pub(crate) fn builder_append_null(builder: &mut ByteColumnBuilder)
    ensures
        builder_rows(*final(builder)) == builder_rows(*old(builder)).push(None),
{
    builder.builder.append_null()
}

/// `BinaryBuilder::finish`: the rows taken so far become a column and the builder is empty again.
#[verifier::external_body]
pub(crate) fn builder_finish(builder: &mut ByteColumnBuilder) -> (column: ByteColumn)
    ensures
        column_rows(column) == builder_rows(*old(builder)),
        builder_rows(*final(builder)) == Seq::<Option<Seq<u8>>>::empty(),
{
    ByteColumn { array: builder.builder.finish() }
}

/// `BinaryBuilder::finish_cloned`: a column of the rows taken so far, which the builder keeps.
#[verifier::external_body]
pub(crate) fn builder_finish_cloned(builder: &ByteColumnBuilder) -> (column: ByteColumn)
    ensures
        column_rows(column) == builder_rows(*builder),
{
    ByteColumn { array: builder.builder.finish_cloned() }
}

} // verus!
