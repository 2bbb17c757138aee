//! The mathematical model of a nullable binary column: a sequence of rows, each of which is
//! either null or a string of bytes.
use vstd::prelude::*;

verus! {

/// How many bytes the rows hold together. A null row holds none.
pub open spec fn byte_total(rows: Seq<Option<Seq<u8>>>) -> nat
    decreases rows.len(),
{
    if rows.len() == 0 {
        0
    } else {
        byte_total(rows.drop_last()) + match rows.last() {
            Some(bytes) => bytes.len(),
            None => 0,
        }
    }
}

/// How many of the rows are null.
pub open spec fn null_total(rows: Seq<Option<Seq<u8>>>) -> nat
    decreases rows.len(),
{
    if rows.len() == 0 {
        0
    } else {
        null_total(rows.drop_last()) + if rows.last() is None {
            1nat
        } else {
            0
        }
    }
}

/// How many bytes it takes to store the rows: the bytes that they hold, an offset of four bytes
/// before each row and after the last, and, where some row is null, a bit for each row.
pub open spec fn stored_bytes(rows: Seq<Option<Seq<u8>>>) -> nat {
    byte_total(rows) + 4 * (rows.len() + 1) + if null_total(rows) > 0 {
        (rows.len() + 7) / 8
    } else {
        0
    }
}

/// The rows that a list of optional byte strings stands for.
pub open spec fn rows_of(data: Seq<Option<Vec<u8>>>) -> Seq<Option<Seq<u8>>> {
    Seq::new(
        data.len(),
        |i: int|
            match data[i] {
                Some(bytes) => Some(bytes@),
                None => None,
            },
    )
}

/// The rows that a list of byte slices stands for: none of them is null.
pub open spec fn rows_of_slices(data: Seq<&[u8]>) -> Seq<Option<Seq<u8>>> {
    Seq::new(data.len(), |i: int| Some(data[i]@))
}

/// The rows that a list of byte vectors stands for: none of them is null.
pub open spec fn rows_of_vecs(data: Seq<Vec<u8>>) -> Seq<Option<Seq<u8>>> {
    Seq::new(data.len(), |i: int| Some(data[i]@))
}

/// A prefix of the rows holds no more bytes than all of them.
pub proof fn lemma_byte_total_prefix(rows: Seq<Option<Seq<u8>>>, n: int)
    requires
        0 <= n <= rows.len(),
    ensures
        byte_total(rows.take(n)) <= byte_total(rows),
    decreases rows.len() - n,
{
    if n < rows.len() {
        lemma_byte_total_prefix(rows, n + 1);
        assert(rows.take(n + 1).drop_last() =~= rows.take(n));
    } else {
        assert(rows.take(n) =~= rows);
    }
}

/// The bytes of two runs of rows add up.
pub proof fn lemma_byte_total_concat(a: Seq<Option<Seq<u8>>>, b: Seq<Option<Seq<u8>>>)
    ensures
        byte_total(a + b) == byte_total(a) + byte_total(b),
    decreases b.len(),
{
    if b.len() == 0 {
        assert(a + b =~= a);
    } else {
        lemma_byte_total_concat(a, b.drop_last());
        assert((a + b).drop_last() =~= a + b.drop_last());
    }
}

/// No row is null exactly where the count of null rows is zero, and every row is null exactly
/// where it is the number of rows.
pub proof fn lemma_null_total(rows: Seq<Option<Seq<u8>>>)
    ensures
        null_total(rows) <= rows.len(),
        null_total(rows) == 0 <==> forall|i: int| 0 <= i < rows.len() ==> rows[i] is Some,
        null_total(rows) == rows.len() <==> forall|i: int|
            0 <= i < rows.len() ==> rows[i] is None,
    decreases rows.len(),
{
    if rows.len() > 0 {
        let front = rows.drop_last();
        lemma_null_total(front);
        assert(forall|i: int| 0 <= i < front.len() ==> front[i] == rows[i]);
        assert(rows.last() == rows[rows.len() - 1]);
        if null_total(rows) == 0 {
            assert forall|i: int| 0 <= i < rows.len() implies rows[i] is Some by {
                assert(i < front.len() ==> front[i] is Some);
            }
        }
        if forall|i: int| 0 <= i < rows.len() ==> rows[i] is Some {
            assert(null_total(front) == 0);
        }
        if null_total(rows) == rows.len() {
            assert forall|i: int| 0 <= i < rows.len() implies rows[i] is None by {
                assert(i < front.len() ==> front[i] is None);
            }
        }
        if forall|i: int| 0 <= i < rows.len() ==> rows[i] is None {
            assert(null_total(front) == front.len());
        }
    }
}

/// Bytes and null rows are counted row by row: a null row counts as one null row and holds no
/// bytes, any other row counts as none and holds its own bytes, and the counts of two runs of
/// rows add up.
pub proof fn law_rows_are_counted_one_by_one(
    bytes: Seq<u8>,
    a: Seq<Option<Seq<u8>>>,
    b: Seq<Option<Seq<u8>>>,
)
    ensures
        null_total(Seq::empty()) == 0,
        byte_total(Seq::empty()) == 0,
        null_total(seq![None]) == 1,
        byte_total(seq![None]) == 0,
        null_total(seq![Some(bytes)]) == 0,
        byte_total(seq![Some(bytes)]) == bytes.len(),
        null_total(a + b) == null_total(a) + null_total(b),
        byte_total(a + b) == byte_total(a) + byte_total(b),
    decreases b.len(),
{
    lemma_byte_total_concat(a, b);
    let one: Seq<Option<Seq<u8>>> = seq![None];
    let other = seq![Some(bytes)];
    assert(one.drop_last() =~= Seq::empty());
    assert(other.drop_last() =~= Seq::empty());
    assert(null_total(one.drop_last()) == 0 && byte_total(one.drop_last()) == 0);
    assert(null_total(other.drop_last()) == 0 && byte_total(other.drop_last()) == 0);
    if b.len() == 0 {
        assert(a + b =~= a);
    } else {
        law_rows_are_counted_one_by_one(bytes, a, b.drop_last());
        assert((a + b).drop_last() =~= a + b.drop_last());
    }
}

/// Lists of byte strings become rows one for one, in their order: a row is null exactly where
/// the list has `None`, and else has the bytes that the list has.
pub proof fn law_rows_are_the_items(
    options: Seq<Option<Vec<u8>>>,
    slices: Seq<&[u8]>,
    vecs: Seq<Vec<u8>>,
)
    ensures
        rows_of(options).len() == options.len(),
        forall|i: int|
            0 <= i < options.len() ==> (rows_of(options)[i] is None <==> #[trigger] options[i] is None),
        forall|i: int|
            0 <= i < options.len() && (#[trigger] options[i]) is Some ==> rows_of(options)[i] == Some(
                options[i]->0@,
            ),
        rows_of_slices(slices).len() == slices.len(),
        forall|i: int|
            0 <= i < slices.len() ==> rows_of_slices(slices)[i] == Some((#[trigger] slices[i])@),
        rows_of_vecs(vecs).len() == vecs.len(),
        forall|i: int|
            0 <= i < vecs.len() ==> rows_of_vecs(vecs)[i] == Some((#[trigger] vecs[i])@),
{
}

/// Rows take at least the bytes that they hold and four for each of them and one more, and where
/// a row is null eight rows take at least one byte more.
pub proof fn law_rows_take_room(rows: Seq<Option<Seq<u8>>>, i: int)
    ensures
        stored_bytes(rows) >= byte_total(rows) + 4 * (rows.len() + 1),
        0 <= i < rows.len() && rows[i] is None ==> 8 * (stored_bytes(rows) - byte_total(rows) - 4
            * (rows.len() + 1)) >= rows.len(),
{
    lemma_null_total(rows);
}

} // verus!
