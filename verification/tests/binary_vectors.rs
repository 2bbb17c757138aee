use arrow::array::{Array, BinaryArray, Int32Array};
use arrow::datatypes::DataType;
use std::sync::Arc;
use wal_columns::binary::{json_row, AnyVector, BinaryVector, BinaryVectorBuilder};
use wal_columns::error::Error;
use wal_columns::jsonb_text::{answers, to_jsonb};
use wal_columns::value::{ConcreteDataType, Validity, Value, ValueRef};
use wal_columns::vector_text::{parse_string_to_vector_type_value, vector_components, vector_row};

fn component(text: &str) -> Option<[u8; 4]> {
    text.parse::<f32>().ok().map(|v| v.to_le_bytes())
}

fn le_bytes(values: &[f32]) -> Vec<u8> {
    values.iter().flat_map(|v| v.to_le_bytes()).collect()
}

#[test]
fn test_binary_vector_misc() {
    let v = BinaryVector::from(
        BinaryArray::from_iter_values([vec![1, 2, 3], vec![1, 2, 3]]).to_data(),
    );

    assert_eq!(2, v.len());
    assert_eq!("BinaryVector", v.vector_type_name());
    assert!(!v.is_const());
    assert!(v.validity().is_all_valid());
    assert!(!v.only_null());
    assert_eq!(128, v.memory_size());

    for i in 0..2 {
        assert!(!v.is_null(i));
        assert_eq!(Value::Binary(vec![1, 2, 3]), v.get(i));
        assert_eq!(ValueRef::Binary(&[1, 2, 3]), v.get_ref(i));
    }

    let arrow_arr = v.to_arrow_array();
    assert_eq!(2, arrow_arr.len());
    assert_eq!(&DataType::Binary, arrow_arr.data_type());
    assert_eq!(ConcreteDataType::Binary, v.data_type());
    assert_eq!(arrow_arr, *v.to_boxed_arrow_array());
}

#[test]
fn test_serialize_binary_vector_to_json() {
    let vector = BinaryVector::from(
        BinaryArray::from_iter_values([vec![1, 2, 3], vec![1, 2, 3]]).to_data(),
    );

    let json_value = vector.serialize_to_json().unwrap();
    assert_eq!("[[1,2,3],[1,2,3]]", serde_json::to_string(&json_value).unwrap());
}

#[test]
fn test_serialize_binary_vector_with_null_to_json() {
    let mut builder = BinaryVectorBuilder::with_capacity(4);
    builder.push(Some(&[1, 2, 3]));
    builder.push(None);
    builder.push(Some(&[4, 5, 6]));
    let vector = builder.finish();

    let json_value = vector.serialize_to_json().unwrap();
    assert_eq!("[[1,2,3],null,[4,5,6]]", serde_json::to_string(&json_value).unwrap());
}

#[test]
fn test_from_arrow_array() {
    let arrow_array = BinaryArray::from_iter_values([vec![1, 2, 3], vec![1, 2, 3]]);
    let original = BinaryArray::from(arrow_array.to_data());
    let vector = BinaryVector::from(arrow_array.to_data());
    assert_eq!(original, BinaryArray::from(vector.to_arrow_array()));
}

#[test]
fn test_binary_vector_build_get() {
    let mut builder = BinaryVectorBuilder::with_capacity(4);
    builder.push(Some(b"hello"));
    builder.push(Some(b"happy"));
    builder.push(Some(b"world"));
    builder.push(None);

    let vector = builder.finish();
    assert_eq!(b"hello", vector.get_data(0).unwrap());
    assert_eq!(None, vector.get_data(3));

    assert_eq!(Value::Binary(b"hello".to_vec()), vector.get(0));
    assert_eq!(Value::Null, vector.get(3));

    let mut iter = vector.iter_data().into_iter();
    assert_eq!(b"hello", iter.next().unwrap().unwrap());
    assert_eq!(b"happy", iter.next().unwrap().unwrap());
    assert_eq!(b"world", iter.next().unwrap().unwrap());
    assert_eq!(None, iter.next().unwrap());
    assert_eq!(None, iter.next());
}

#[test]
fn test_binary_vector_validity() {
    let mut builder = BinaryVectorBuilder::with_capacity(4);
    builder.push(Some(b"hello"));
    builder.push(Some(b"world"));
    let vector = builder.finish();
    assert_eq!(0, vector.null_count());
    assert!(vector.validity().is_all_valid());

    let mut builder = BinaryVectorBuilder::with_capacity(3);
    builder.push(Some(b"hello"));
    builder.push(None);
    builder.push(Some(b"world"));
    let vector = builder.finish();
    assert_eq!(1, vector.null_count());
    let validity = vector.validity();
    assert!(!validity.is_set(1));

    assert_eq!(1, validity.null_count());
    assert!(!validity.is_set(1));
}

#[test]
fn test_binary_vector_builder() {
    let input = AnyVector::Binary(BinaryVector::from_slice(&[b"world", b"one", b"two"]));

    let mut builder = BinaryVectorBuilder::with_capacity(3);
    builder.push_value_ref(ValueRef::Binary("hello".as_bytes()));
    assert!(builder.try_push_value_ref(ValueRef::Int32(123)).is_err());
    builder.extend_slice_of(&input, 1, 2).unwrap();
    assert!(builder
        .extend_slice_of(&AnyVector::Other { name: "Int32Vector".to_string() }, 0, 1)
        .is_err());
    let vector = builder.to_vector();

    let expect = Arc::new(BinaryVector::from_slice(&[b"hello", b"one", b"two"]));
    assert_eq!(expect, vector);
}

#[test]
fn test_binary_vector_builder_finish_cloned() {
    let mut builder = BinaryVectorBuilder::with_capacity(1024);
    builder.push(Some(b"one"));
    builder.push(Some(b"two"));
    builder.push(Some(b"three"));
    let vector = builder.finish_cloned();
    assert_eq!(b"one", vector.get_data(0).unwrap());
    assert_eq!(vector.len(), 3);
    assert_eq!(builder.len(), 3);

    builder.push(Some(b"four"));
    let vector = builder.finish_cloned();
    assert_eq!(b"four", vector.get_data(3).unwrap());
    assert_eq!(builder.len(), 4);
}

#[test]
fn test_binary_json_conversion() {
    // json strings
    let json_strings = vec![
        b"{\"hello\": \"world\"}".to_vec(),
        b"{\"foo\": 1}".to_vec(),
        b"123".to_vec(),
    ];
    let json_vector = BinaryVector::from(json_strings.clone())
        .convert_binary_to_json()
        .unwrap();
    let jsonbs = json_strings
        .iter()
        .map(|v| jsonb::parse_value(v).unwrap().to_vec())
        .collect::<Vec<_>>();
    for i in 0..3 {
        assert_eq!(
            json_vector.get_ref(i).as_binary().unwrap().unwrap(),
            jsonbs.get(i).unwrap().as_slice()
        );
    }

    // jsonb
    let json_vector = BinaryVector::from(jsonbs.clone())
        .convert_binary_to_json()
        .unwrap();
    for i in 0..3 {
        assert_eq!(
            json_vector.get_ref(i).as_binary().unwrap().unwrap(),
            jsonbs.get(i).unwrap().as_slice()
        );
    }

    // binary with jsonb header (0x80, 0x40, 0x20)
    let binary_with_jsonb_header: Vec<u8> = [0x80, 0x23, 0x40, 0x22].to_vec();
    let error = BinaryVector::from(vec![binary_with_jsonb_header])
        .convert_binary_to_json()
        .unwrap_err();
    assert!(matches!(error, Error::InvalidJson { .. }));

    // invalid json string
    let json_strings = vec![b"{\"hello\": \"world\"".to_vec()];
    let error = BinaryVector::from(json_strings)
        .convert_binary_to_json()
        .unwrap_err();
    assert!(matches!(error, Error::InvalidJson { .. }));

    // corrupted jsonb
    let jsonb = jsonb::parse_value("{\"hello\": \"world\"}".as_bytes())
        .unwrap()
        .to_vec();
    let corrupted_jsonb = jsonb[0..jsonb.len() - 1].to_vec();
    let error = BinaryVector::from(vec![corrupted_jsonb])
        .convert_binary_to_json()
        .unwrap_err();
    assert!(matches!(error, Error::InvalidJson { .. }));
}

#[test]
fn test_binary_vector_conversion() {
    let dim = 3;
    let vector = BinaryVector::from(vec![
        Some(b"[1,2,3]".to_vec()),
        Some(b"[4,5,6]".to_vec()),
        Some(b"[7,8,9]".to_vec()),
        None,
    ]);
    let expected = BinaryVector::from(vec![
        Some(le_bytes(&[1.0, 2.0, 3.0])),
        Some(le_bytes(&[4.0, 5.0, 6.0])),
        Some(le_bytes(&[7.0, 8.0, 9.0])),
        None,
    ]);

    let converted = vector.convert_binary_to_vector(dim, component).unwrap();
    assert_eq!(converted.len(), expected.len());
    for i in 0..3 {
        assert_eq!(
            converted.get_ref(i).as_binary().unwrap().unwrap(),
            expected.get_ref(i).as_binary().unwrap().unwrap()
        );
    }
    assert_eq!(converted, expected);
}

#[test]
fn arrays_of_other_types_are_refused() {
    let numbers = Int32Array::from(vec![1, 2]);
    let error = BinaryVector::try_from_arrow_array(numbers.to_data()).unwrap_err();
    assert_eq!(error, Error::Conversion { from: "Int32".to_string() });
    let bytes = BinaryArray::from_iter_values([b"a"]);
    let vector = BinaryVector::try_from_arrow_array(bytes.to_data()).unwrap();
    assert_eq!(vector, BinaryVector::from_slice(&[b"a"]));
}

#[test]
fn slices_keep_nulls_and_order() {
    let vector = BinaryVector::from(vec![
        Some(b"a".to_vec()),
        None,
        Some(b"".to_vec()),
        Some(b"dd".to_vec()),
    ]);
    let part = vector.slice(1, 2);
    assert_eq!(part.len(), 2);
    assert!(part.is_null(0));
    assert_eq!(part.get_data(1), Some(&b""[..]));
    assert_eq!(part.null_count(), 1);
    assert_eq!(part.validity().null_count(), part.null_count());
    assert!(!part.only_null());
    assert!(vector.slice(1, 1).only_null());
    assert!(vector.slice(4, 0).validity().is_all_valid());
    assert!(vector.slice(1, 1).validity().is_all_null());
    let again = BinaryVector::from(BinaryArray::from(part.to_arrow_array()).to_data());
    assert_eq!(again, *part);
}

#[test]
fn a_finished_builder_is_empty_again() {
    let mut builder = BinaryVectorBuilder::with_capacity(0);
    assert_eq!(builder.data_type(), ConcreteDataType::Binary);
    builder.push_null();
    builder.push(Some(b"x"));
    let shared = builder.to_vector_cloned();
    assert_eq!(builder.len(), 2);
    let vector = builder.finish();
    assert_eq!(*shared, vector);
    assert_eq!(builder.len(), 0);
    assert_eq!(builder.finish().len(), 0);
    assert_eq!(vector.get(0), Value::Null);
    assert_eq!(vector.get_ref(1), ValueRef::Binary(b"x"));
}

#[test]
fn refused_values_leave_the_builder_unchanged() {
    let mut builder = BinaryVectorBuilder::with_capacity(1);
    builder.try_push_value_ref(ValueRef::Null).unwrap();
    let error = builder.try_push_value_ref(ValueRef::Int32(-123)).unwrap_err();
    assert_eq!(
        error,
        Error::CastType { msg: "Failed to cast value ref Int32(-123) to Binary".to_string() }
    );
    let other = AnyVector::Other { name: "Int32Vector".to_string() };
    let error = builder.extend_slice_of(&other, 2, 3).unwrap_err();
    assert_eq!(
        error,
        Error::CastType {
            msg: "Failed to cast vector from Int32Vector to BinaryVector".to_string()
        }
    );
    assert_eq!(builder.len(), 1);
}

#[test]
fn validity_of_given_bits() {
    let validity = Validity::from_bits(vec![true, false, true, false]);
    assert!(validity.is_set(0));
    assert!(!validity.is_set(3));
    assert_eq!(validity.null_count(), 2);
    assert!(!validity.is_all_valid());
    assert!(!validity.is_all_null());
}

#[test]
fn json_errors_show_the_row() {
    let vector = BinaryVector::from(vec![
        None,
        Some(b"{\"a\": [1, \"two\", null]}".to_vec()),
        Some(b"nope".to_vec()),
        Some(b"also nope".to_vec()),
    ]);
    let error = vector.convert_binary_to_json().unwrap_err();
    assert_eq!(error, Error::InvalidJson { value: "nope".to_string() });

    let vector = BinaryVector::from(vec![Some(vec![b'x', 0xff, b'y'])]);
    let error = vector.convert_binary_to_json().unwrap_err();
    assert_eq!(error, Error::InvalidJson { value: "x\u{fffd}y".to_string() });

    assert_eq!(json_row(b"ab", Some(vec![1])), Ok(vec![1]));
    assert_eq!(json_row(b"ab", None), Err(Error::InvalidJson { value: "ab".to_string() }));
}

#[test]
fn json_conversion_is_idempotent() {
    let vector = BinaryVector::from(vec![
        Some(b"{\"b\": [1, -2, 3.5, true, null], \"a\": {\"x\": \"y\"}}".to_vec()),
        None,
        Some(b"\"text\"".to_vec()),
        Some(b"-0".to_vec()),
        Some(b"{}".to_vec()),
        Some(b"[]".to_vec()),
        Some(b"18446744073709551615".to_vec()),
    ]);
    let once = vector.convert_binary_to_json().unwrap();
    assert_ne!(once, vector);
    for row in once.iter_data().into_iter().flatten() {
        assert!(answers(row));
    }
    let twice = once.convert_binary_to_json().unwrap();
    assert_eq!(once, twice);
    assert_eq!(once.try_convert_binary_to_json().unwrap().unwrap(), twice);
}

#[test]
fn rows_without_an_answer_are_told_apart() {
    // A number without bytes, a float of the wrong size and a key that is not text.
    let no_number = vec![0x20, 0, 0, 0, 0x20, 0, 0, 0];
    let short_float = vec![0x20, 0, 0, 0, 0x20, 0, 0, 2, 0x60, 0];
    let null_key = vec![0x40, 0, 0, 1, 0, 0, 0, 0, 0, 0, 0, 0];
    let broken_value = vec![
        0x40, 0, 0, 2, 0x10, 0, 0, 1, 0, 0, 0, 0, 0x10, 0, 0, 9, 0, 0, 0, 0, b'k',
    ];
    // The value of the first key is cut off before the turn of the second key comes.
    assert!(answers(&broken_value));
    let value = String::from_utf8_lossy(&broken_value).to_string();
    assert_eq!(
        BinaryVector::from(vec![broken_value]).try_convert_binary_to_json(),
        Some(Err(Error::InvalidJson { value }))
    );
    for row in [no_number, short_float, null_key] {
        assert!(!answers(&row));
        assert!(BinaryVector::from(vec![row]).try_convert_binary_to_json().is_none());
    }
    for row in [&b"[1, 2]"[..], b"", b"   7", b"\"abc123\"", b"{", &[0x80, 0, 0, 1]] {
        assert!(answers(row));
    }
    // A row after the first that is not JSON does not count.
    let vector = BinaryVector::from(vec![
        b"nope".to_vec(),
        vec![0x20, 0, 0, 0, 0x20, 0, 0, 0],
    ]);
    assert_eq!(
        vector.try_convert_binary_to_json().unwrap().unwrap_err(),
        Error::InvalidJson { value: "nope".to_string() }
    );
}

#[test]
fn vector_rows_as_text_and_as_bytes() {
    let raw = vec![0xff, 0xfe, 0, 1, 2, 3, 4, 0x80];
    let vector = BinaryVector::from(vec![
        Some(b"  [ 1.5 ,\t-2 ]\n".to_vec()),
        Some(raw.clone()),
        None,
        Some(b"12345678".to_vec()),
    ]);
    let converted = vector.convert_binary_to_vector(2, component).unwrap();
    assert_eq!(converted.get(0), Value::Binary(le_bytes(&[1.5, -2.0])));
    assert_eq!(converted.get(1), Value::Binary(raw));
    assert_eq!(converted.get(2), Value::Null);
    assert_eq!(converted.get(3), Value::Binary(b"12345678".to_vec()));
}

#[test]
fn vector_rows_of_the_wrong_size() {
    for row in [&b"[1,2]"[..], b"[1,x,3]", b"1,2,3", b"[1,2,3", b"[1,,3]", b"[]", b""] {
        let vector = BinaryVector::from(vec![row]);
        let error = vector.convert_binary_to_vector(3, component).unwrap_err();
        let msg = format!(
            "Unexpected bytes size for vector value, expected 12, got {}",
            row.len()
        );
        assert_eq!(error, Error::InvalidVector { msg });
    }
    let vector = BinaryVector::from(vec![&b"[ ]"[..], b""]);
    let converted = vector.convert_binary_to_vector(0, component).unwrap();
    assert_eq!(converted, BinaryVector::from_slice(&[b"", b""]));
}

#[test]
fn vector_rows_step_by_step() {
    assert_eq!(
        vector_components("[ a, b ,c]"),
        Some(vec!["a".to_string(), "b".to_string(), "c".to_string()])
    );
    assert_eq!(vector_components(" [\u{2003}] "), Some(vec![]));
    assert_eq!(vector_components("["), None);
    assert_eq!(vector_components(""), None);
    assert_eq!(
        parse_string_to_vector_type_value("[1,2]", 2, &component),
        Some(le_bytes(&[1.0, 2.0]))
    );
    assert_eq!(parse_string_to_vector_type_value("[1,2]", 3, &component), None);
    assert_eq!(vector_row(b"abcd", 1, None), Ok(b"abcd".to_vec()));
    assert_eq!(vector_row(b"abcd", 7, Some(vec![9])), Ok(vec![9]));
    assert_eq!(
        vector_row(b"abcd", u32::MAX, None),
        Err(Error::InvalidVector {
            msg: "Unexpected bytes size for vector value, expected 17179869180, got 4".to_string()
        })
    );
}

#[test]
fn slices_of_slices() {
    let rows: Vec<&[u8]> = vec![b"a", b"bb", b"ccc", b"dd", b"e"];
    let vector = BinaryVector::from(rows);
    assert_eq!(vector.slice(1, 4).slice(1, 2), vector.slice(2, 2));
    assert_eq!(*vector.slice(2, 2), BinaryVector::from_slice(&[b"ccc", b"dd"]));
}

#[test]
fn rows_stay_where_they_were_added() {
    let mut builder = BinaryVectorBuilder::with_capacity(2);
    builder.push(Some(b"first"));
    builder.push_null();
    let early = builder.finish_cloned();
    let more = AnyVector::Binary(BinaryVector::from_slice(&[b"x", b"y", b"z"]));
    builder.extend_slice_of(&more, 1, 2).unwrap();
    let vector = builder.finish();
    assert_eq!(*vector.slice(0, 2), early);
    assert_eq!(vector.get_data(2), Some(&b"y"[..]));
    assert_eq!(vector.get_data(3), Some(&b"z"[..]));
}

#[test]
fn vector_conversion_has_one_outcome() {
    let vector = BinaryVector::from(vec![
        Some(b"[0.1, 1e3]".to_vec()),
        None,
        Some(b"[inf,-0]".to_vec()),
    ]);
    let once = vector.convert_binary_to_vector(2, component).unwrap();
    assert_eq!(once, vector.convert_binary_to_vector(2, component).unwrap());
    assert_eq!(once.get(0), Value::Binary(le_bytes(&[0.1, 1000.0])));
    assert_eq!(once.get(2), Value::Binary(le_bytes(&[f32::INFINITY, -0.0])));
}

#[test]
fn jsonb_of_small_values() {
    assert_eq!(to_jsonb(b"null"), Some(vec![0x20, 0, 0, 0, 0, 0, 0, 0]));
    assert_eq!(to_jsonb(b"true"), Some(vec![0x20, 0, 0, 0, 0x40, 0, 0, 0]));
    assert_eq!(
        to_jsonb(b"123"),
        Some(vec![0x20, 0, 0, 0, 0x20, 0, 0, 2, 0x50, 123])
    );
    assert_eq!(to_jsonb(b"tru"), None);
}

#[test]
fn memory_has_room_for_the_rows() {
    let empty = BinaryVector::from(Vec::<Vec<u8>>::new());
    assert!(empty.memory_size() >= 4);
    let values = BinaryVector::from(vec![vec![7u8; 1000], vec![8u8; 500]]);
    assert!(values.memory_size() >= 1500 + 4 * 3);
    let nulls = BinaryVector::from(vec![None::<Vec<u8>>; 1000]);
    assert!(nulls.memory_size() >= 4 * 1001 + 125);
    assert!(values.slice(1, 1).memory_size() >= 500 + 4 * 2);
    assert!(BinaryVector::from(values.to_arrow_array()).memory_size() >= 1500 + 4 * 3);
}

#[test]
fn keys_in_scalar_containers_are_text() {
    let row = vec![
        0x40, 0, 0, 1, 0x50, 0, 0, 0, 0, 0, 0, 0, 0x20, 0, 0, 0, 0x10, 0, 0, 1, b'k',
    ];
    let object = vec![0x40, 0, 0, 1, 0x10, 0, 0, 1, 0, 0, 0, 0, b'k'];
    assert!(answers(&row));
    let vector = BinaryVector::from(vec![row]);
    let converted = vector.convert_binary_to_json().unwrap();
    assert_eq!(converted.get(0), Value::Binary(object.clone()));
    assert_eq!(vector.try_convert_binary_to_json(), Some(Ok(converted)));

    // Two keys, the first in two containers, one in the other, and the second plain.
    let row = vec![
        0x40, 0, 0, 2, 0x50, 0, 0, 0, 0x10, 0, 0, 1, 0, 0, 0, 0, 0x40, 0, 0, 0, 0x20, 0, 0, 0,
        0x50, 0, 0, 0, 0x20, 0, 0, 0, 0x10, 0, 0, 2, b'k', b'k', b'l',
    ];
    assert!(answers(&row));
    assert_eq!(to_jsonb(&row), to_jsonb(b"{\"kk\": null, \"l\": true}"));

    // A key that is a number, or an array, in a container is none.
    let number = vec![
        0x40, 0, 0, 1, 0x50, 0, 0, 0, 0, 0, 0, 0, 0x20, 0, 0, 0, 0x20, 0, 0, 1, 0,
    ];
    let array = vec![0x40, 0, 0, 1, 0x50, 0, 0, 0, 0, 0, 0, 0, 0x80, 0, 0, 0];
    assert!(!answers(&number));
    assert!(!answers(&array));
}

#[test]
fn joined_rows_convert_one_after_the_other() {
    let a = BinaryVector::from(vec![Some(b"{\"a\": 1}".to_vec()), None]);
    let b = BinaryVector::from(vec![Some(b"null".to_vec()), Some(b"2.5".to_vec())]);
    let join = |a: &BinaryVector, b: &BinaryVector| {
        let rows = a.iter_data().into_iter().chain(b.iter_data());
        BinaryVector::from(rows.map(|row| row.map(|r| r.to_vec())).collect::<Vec<_>>())
    };
    assert_eq!(
        join(&a, &b).convert_binary_to_json().unwrap(),
        join(&a.convert_binary_to_json().unwrap(), &b.convert_binary_to_json().unwrap())
    );
}

#[test]
fn joined_vectors_convert_one_after_the_other() {
    let a = BinaryVector::from(vec![Some(b"[1,2]".to_vec()), None]);
    let b = BinaryVector::from(vec![Some(b"12345678".to_vec())]);
    let both = BinaryVector::from(vec![
        Some(b"[1,2]".to_vec()),
        None,
        Some(b"12345678".to_vec()),
    ]);
    let ra = a.convert_binary_to_vector(2, component).unwrap();
    let rb = b.convert_binary_to_vector(2, component).unwrap();
    let converted = both.convert_binary_to_vector(2, component).unwrap();
    assert_eq!(*converted.slice(0, 2), ra);
    assert_eq!(*converted.slice(2, 1), rb);
    for dim in [0, 3, u32::MAX] {
        let none = BinaryVector::from(Vec::<Vec<u8>>::new());
        assert_eq!(none.convert_binary_to_vector(dim, component).unwrap().len(), 0);
    }
}
