//! Vectors of numbers as a row of a binary column may hold them.
//!
//! A row holds a vector either as text, such as `[1.0, 2.5, -3]`, or as four bytes for each
//! component. How the text of one component becomes its four bytes is the caller's affair: every
//! function here that needs it is handed the reader of one component.
use crate::error::Error;
use crate::text::{
    decimal, decimal_string, is_white_space, joined, law_split_undoes_join,
    law_trim_takes_white_space_only, lemma_split_after, lemma_split_before, lemma_split_len,
    lemma_trim_splits, split, split_text, text_from_utf8, trim, trim_text, views,
};
use vstd::prelude::*;
use vstd::slice::slice_to_vec;
use vstd::string::*;
use vstd::utf8::{
    decode_utf8, encode_utf8, encode_utf8_decode_utf8, encode_utf8_valid_utf8, valid_utf8,
};

verus! {

/// The texts of the components of a vector that is written as text: what stands between the
/// brackets, cut at the commas, each part without the white space round it. `None` where the
/// text is not enclosed in brackets.
pub open spec fn components(text: Seq<char>) -> Option<Seq<Seq<char>>> {
    let list = trim(text);
    if list.len() > 0 && list.first() == '[' && list.last() == ']' {
        let content = trim(list.subrange(1, list.len() - 1));
        if content.len() == 0 {
            Some(Seq::empty())
        } else {
            let parts = split(content, ',');
            Some(Seq::new(parts.len(), |i: int| trim(parts[i])))
        }
    } else {
        None
    }
}

/// Cuts a vector that is written as text into the texts of its components.
pub fn vector_components(text: &str) -> (parts: Option<Vec<String>>)
    ensures
        match parts {
            Some(parts) => components(text@) == Some(views(parts@)),
            None => components(text@) is None,
        },
{
    let list = trim_text(text);
    let n = list.unicode_len();
    if n == 0 || list.get_char(0) != '[' || list.get_char(n - 1) != ']' {
        return None;
    }
    let content = trim_text(list.substring_char(1, n - 1));
    let mut parts: Vec<String> = Vec::new();
    if content.unicode_len() == 0 {
        assert(views(parts@) =~= Seq::empty());
        return Some(parts);
    }
    let raw = split_text(content, ',');
    let ghost raw_views = split(content@, ',');
    let mut i: usize = 0;
    while i < raw.len()
        invariant
            i <= raw@.len(),
            raw_views == views(raw@),
            views(parts@) == Seq::new(i as nat, |k: int| trim(raw_views[k])),
        decreases raw@.len() - i,
    {
        let ghost before = views(parts@);
        parts.push(trim_text(raw[i].as_str()).to_owned());
        assert(views(parts@) =~= before.push(trim(raw_views[i as int])));
        assert(views(parts@) =~= Seq::new((i + 1) as nat, |k: int| trim(raw_views[k])));
        i += 1;
    }
    Some(parts)
}

/// Whether a reader of components may give `word` for a text.
pub open spec fn reads_as<F: Fn(&str) -> Option<[u8; 4]>>(
    parse: F,
    text: Seq<char>,
    word: Option<[u8; 4]>,
) -> bool {
    exists|t: &str| t@ == text && call_ensures(parse, (t,), word)
}

/// The bytes of a vector: those of its components, one after the other.
pub open spec fn words_bytes(words: Seq<[u8; 4]>) -> Seq<u8>
    decreases words.len(),
{
    if words.len() == 0 {
        Seq::empty()
    } else {
        words_bytes(words.drop_last()) + words.last()@
    }
}

/// Four bytes for each component.
pub proof fn lemma_words_bytes_len(words: Seq<[u8; 4]>)
    ensures
        words_bytes(words).len() == 4 * words.len(),
    decreases words.len(),
{
    if words.len() > 0 {
        lemma_words_bytes_len(words.drop_last());
    }
}

/// Whether text may be read as a vector of `dim` components whose bytes are `bytes`: it has
/// `dim` components and the reader takes each of them.
pub open spec fn text_reads_as<F: Fn(&str) -> Option<[u8; 4]>>(
    parse: F,
    text: Seq<char>,
    dim: nat,
    bytes: Seq<u8>,
) -> bool {
    &&& components(text) is Some
    &&& components(text)->0.len() == dim
    &&& exists|words: Seq<[u8; 4]>|
        {
            &&& words.len() == dim
            &&& #[trigger] words_bytes(words) == bytes
            &&& forall|k: int|
                0 <= k < dim ==> reads_as(parse, components(text)->0[k], Some(#[trigger] words[k]))
        }
}

/// Whether text may be refused as a vector of `dim` components: it is not enclosed in brackets,
/// or has another number of components, or the reader refuses one of them.
pub open spec fn text_refused<F: Fn(&str) -> Option<[u8; 4]>>(
    parse: F,
    text: Seq<char>,
    dim: nat,
) -> bool {
    ||| components(text) is None
    ||| components(text)->0.len() != dim
    ||| exists|k: int|
        0 <= k < components(text)->0.len() && reads_as(
            parse,
            #[trigger] components(text)->0[k],
            None,
        )
}

/// Reads text as a vector of `dim` components and gives its bytes.
pub fn parse_string_to_vector_type_value<F: Fn(&str) -> Option<[u8; 4]>>(
    text: &str,
    dim: u32,
    parse: &F,
) -> (bytes: Option<Vec<u8>>)
    requires
        forall|t: &str| call_requires(*parse, (t,)),
    ensures
        match bytes {
            Some(bytes) => text_reads_as(*parse, text@, dim as nat, bytes@),
            None => text_refused(*parse, text@, dim as nat),
        },
{
    let parts = match vector_components(text) {
        Some(parts) => parts,
        None => return None,
    };
    let ghost texts = views(parts@);
    let mut bytes: Vec<u8> = Vec::new();
    let ghost mut words: Seq<[u8; 4]> = Seq::empty();
    let mut i: usize = 0;
    while i < parts.len()
        invariant
            i <= parts@.len(),
            words.len() == i,
            bytes@ == words_bytes(words),
            texts == views(parts@),
            components(text@) == Some(texts),
            forall|t: &str| call_requires(*parse, (t,)),
            forall|k: int| 0 <= k < i ==> reads_as(*parse, texts[k], Some(#[trigger] words[k])),
        decreases parts@.len() - i,
    {
        let part = parts[i].as_str();
        assert(part@ == texts[i as int]);
        match parse(part) {
            Some(word) => {
                assert(reads_as(*parse, texts[i as int], Some(word)));
                let ghost before = bytes@;
                bytes.push(word[0]);
                bytes.push(word[1]);
                bytes.push(word[2]);
                bytes.push(word[3]);
                assert(bytes@ =~= before + word@);
                proof {
                    assert(words.push(word).drop_last() =~= words);
                    words = words.push(word);
                }
            },
            None => {
                assert(reads_as(*parse, components(text@)->0[i as int], None));
                return None;
            },
        }
        i += 1;
    }
    if parts.len() as u64 == dim as u64 {
        assert(words_bytes(words) == bytes@);
        Some(bytes)
    } else {
        None
    }
}

/// What is said of a row whose size is not that of a vector.
pub open spec fn size_message(expected: nat, got: nat) -> Seq<char> {
    "Unexpected bytes size for vector value, expected "@ + decimal(expected) + ", got "@ + decimal(
        got,
    )
}

/// Decides on a row once it is known what its text reads as: the vector that was read, else
/// the row itself where it has the size of a vector of `dim` components, else an error.
pub fn vector_row(row: &[u8], dim: u32, parsed: Option<Vec<u8>>) -> (res: Result<Vec<u8>, Error>)
    ensures
        match parsed {
            Some(bytes) => res == Ok::<Vec<u8>, Error>(bytes),
            None => if row@.len() == 4 * dim {
                res matches Ok(bytes) && bytes@ == row@
            } else {
                res matches Err(Error::InvalidVector { msg }) && msg@ == size_message(
                    4 * (dim as nat),
                    row@.len(),
                )
            },
        },
{
    match parsed {
        Some(bytes) => Ok(bytes),
        None => {
            let expected: u64 = 4 * dim as u64;
            if row.len() as u64 == expected {
                Ok(slice_to_vec(row))
            } else {
                let mut msg = "Unexpected bytes size for vector value, expected ".to_owned();
                msg.append(decimal_string(expected).as_str());
                msg.append(", got ");
                msg.append(decimal_string(row.len() as u64).as_str());
                Err(Error::InvalidVector { msg })
            }
        },
    }
}

/// Whether a row may become a vector of `dim` components whose bytes are `bytes`.
pub open spec fn row_becomes<F: Fn(&str) -> Option<[u8; 4]>>(
    parse: F,
    row: Seq<u8>,
    dim: nat,
    bytes: Seq<u8>,
) -> bool {
    ||| valid_utf8(row) && text_reads_as(parse, decode_utf8(row), dim, bytes)
    ||| {
        &&& bytes == row
        &&& row.len() == 4 * dim
        &&& valid_utf8(row) ==> text_refused(parse, decode_utf8(row), dim)
    }
}

/// Whether a row may be refused as a vector of `dim` components.
pub open spec fn row_refused<F: Fn(&str) -> Option<[u8; 4]>>(
    parse: F,
    row: Seq<u8>,
    dim: nat,
) -> bool {
    &&& row.len() != 4 * dim
    &&& valid_utf8(row) ==> text_refused(parse, decode_utf8(row), dim)
}

/// A row that has become a vector has four bytes for each component.
pub proof fn lemma_row_becomes_len<F: Fn(&str) -> Option<[u8; 4]>>(
    parse: F,
    row: Seq<u8>,
    dim: nat,
    bytes: Seq<u8>,
)
    requires
        row_becomes(parse, row, dim, bytes),
    ensures
        bytes.len() == 4 * dim,
{
    if valid_utf8(row) && text_reads_as(parse, decode_utf8(row), dim, bytes) {
        let text = decode_utf8(row);
        lemma_words_of(parse, text, dim, bytes);
        lemma_words_bytes_len(words_of(parse, text, dim, bytes));
    }
}

/// Whether a reader gives one answer for one text.
pub open spec fn reader_is_function<F: Fn(&str) -> Option<[u8; 4]>>(parse: F) -> bool {
    forall|text: Seq<char>, a: Option<[u8; 4]>, b: Option<[u8; 4]>| #[trigger]
        reads_as(parse, text, a) && #[trigger] reads_as(parse, text, b) ==> a == b
}

/// A reader that gives one answer for one text leaves no choice: a row is not both taken and
/// refused, and it does not become two different vectors.
pub proof fn law_reader_decides<F: Fn(&str) -> Option<[u8; 4]>>(
    parse: F,
    row: Seq<u8>,
    dim: nat,
    a: Seq<u8>,
    b: Seq<u8>,
)
    requires
        reader_is_function(parse),
        row_becomes(parse, row, dim, a),
    ensures
        !row_refused(parse, row, dim),
        row_becomes(parse, row, dim, b) ==> a == b,
{
    if valid_utf8(row) {
        let text = decode_utf8(row);
        if text_reads_as(parse, text, dim, a) {
            let wa = words_of(parse, text, dim, a);
            lemma_words_of(parse, text, dim, a);
            if text_refused(parse, text, dim) {
                let k = choose|k: int|
                    0 <= k < components(text)->0.len() && reads_as(
                        parse,
                        #[trigger] components(text)->0[k],
                        None,
                    );
                assert(reads_as(parse, components(text)->0[k], Some(wa[k])));
            }
            if text_reads_as(parse, text, dim, b) {
                let wb = words_of(parse, text, dim, b);
                lemma_words_of(parse, text, dim, b);
                assert forall|k: int| 0 <= k < dim implies wa[k] == wb[k] by {
                    assert(reads_as(parse, components(text)->0[k], Some(wa[k])));
                    assert(reads_as(parse, components(text)->0[k], Some(wb[k])));
                }
                assert(wa =~= wb);
            }
        } else if text_reads_as(parse, text, dim, b) {
            let wb = words_of(parse, text, dim, b);
            lemma_words_of(parse, text, dim, b);
            let k = choose|k: int|
                0 <= k < components(text)->0.len() && reads_as(
                    parse,
                    #[trigger] components(text)->0[k],
                    None,
                );
            assert(reads_as(parse, components(text)->0[k], Some(wb[k])));
        }
    }
}

/// Components with which a text reads as `bytes`.
spec fn words_of<F: Fn(&str) -> Option<[u8; 4]>>(
    parse: F,
    text: Seq<char>,
    dim: nat,
    bytes: Seq<u8>,
) -> Seq<[u8; 4]> {
    choose|words: Seq<[u8; 4]>|
        {
            &&& words.len() == dim
            &&& #[trigger] words_bytes(words) == bytes
            &&& forall|k: int|
                0 <= k < dim ==> reads_as(parse, components(text)->0[k], Some(#[trigger] words[k]))
        }
}

proof fn lemma_words_of<F: Fn(&str) -> Option<[u8; 4]>>(
    parse: F,
    text: Seq<char>,
    dim: nat,
    bytes: Seq<u8>,
)
    requires
        text_reads_as(parse, text, dim, bytes),
    ensures
        words_of(parse, text, dim, bytes).len() == dim,
        words_bytes(words_of(parse, text, dim, bytes)) == bytes,
        forall|k: int|
            0 <= k < dim ==> reads_as(
                parse,
                components(text)->0[k],
                Some(#[trigger] words_of(parse, text, dim, bytes)[k]),
            ),
{
}

/// Reads a row as a vector of `dim` components.
pub fn read_vector_row<F: Fn(&str) -> Option<[u8; 4]>>(row: &[u8], dim: u32, parse: &F) -> (res:
    Result<Vec<u8>, Error>)
    requires
        forall|t: &str| call_requires(*parse, (t,)),
    ensures
        match res {
            Ok(bytes) => row_becomes(*parse, row@, dim as nat, bytes@),
            Err(err) => {
                &&& row_refused(*parse, row@, dim as nat)
                &&& err matches Error::InvalidVector { msg }
                &&& msg@ == size_message(4 * (dim as nat), row@.len())
            },
        },
{
    let parsed = match text_from_utf8(row) {
        Some(text) => parse_string_to_vector_type_value(text.as_str(), dim, parse),
        None => None,
    };
    vector_row(row, dim, parsed)
}

/// A list as it is written: parts between brackets, with commas between them.
pub open spec fn written_list(parts: Seq<Seq<char>>) -> Seq<char> {
    seq!['['] + joined(parts, ',') + seq![']']
}

/// The components of a list are its parts, in their order, each without the white space round
/// it; white space round the list makes no difference. A list without parts, or with white space
/// alone, has no components.
pub proof fn law_components_are_the_parts(
    before: Seq<char>,
    parts: Seq<Seq<char>>,
    after: Seq<char>,
)
    requires
        forall|i: int| 0 <= i < before.len() ==> is_white_space(before[i]),
        forall|i: int| 0 <= i < after.len() ==> is_white_space(after[i]),
        forall|k: int| 0 <= k < parts.len() ==> !(#[trigger] parts[k]).contains(','),
    ensures
        components(before + written_list(parts) + after) is Some,
        ({
            let texts = components(before + written_list(parts) + after)->0;
            if parts.len() == 0 || (parts.len() == 1 && trim(parts[0]).len() == 0) {
                texts.len() == 0
            } else {
                &&& texts.len() == parts.len()
                &&& forall|k: int| 0 <= k < parts.len() ==> #[trigger] texts[k] == trim(parts[k])
            }
        }),
{
    let list = written_list(parts);
    let inner = joined(parts, ',');
    law_trim_takes_white_space_only(before, list, after);
    assert(list.first() == '[' && list.last() == ']');
    assert(list.subrange(1, list.len() - 1) =~= inner);
    let content = trim(inner);
    let (from, to) = lemma_trim_splits(inner);
    let lead = inner.subrange(0, from);
    let tail = inner.subrange(to, inner.len() as int);
    assert(inner =~= lead + (content + tail));
    assert(!lead.contains(',')) by {
        assert forall|i: int| 0 <= i < lead.len() implies lead[i] != ',' by {
            assert(is_white_space(inner[i]));
        }
    }
    assert(!tail.contains(',')) by {
        assert forall|i: int| 0 <= i < tail.len() implies tail[i] != ',' by {
            assert(is_white_space(inner[to + i]));
        }
    }
    if parts.len() == 0 {
        assert(inner =~= Seq::<char>::empty());
        assert(content.len() == 0);
    } else {
        law_split_undoes_join(parts, ',');
        let raw = split(content, ',');
        lemma_split_len(content, ',');
        lemma_split_before(content, tail, ',');
        lemma_split_after(lead, content + tail, ',');
        let ended = raw.drop_last().push(raw.last() + tail);
        assert(parts == ended.update(0, lead + ended[0]));
        assert(parts.len() == raw.len());
        let none = Seq::<char>::empty();
        assert forall|k: int| 0 <= k < parts.len() implies trim(raw[k]) == #[trigger] trim(
            parts[k],
        ) by {
            let a = if k == 0 {
                lead
            } else {
                none
            };
            let b = if k == parts.len() - 1 {
                tail
            } else {
                none
            };
            assert(parts[k] =~= a + raw[k] + b);
            assert forall|i: int| 0 <= i < a.len() implies is_white_space(a[i]) by {
                assert(is_white_space(inner[i]));
            }
            assert forall|i: int| 0 <= i < b.len() implies is_white_space(b[i]) by {
                assert(is_white_space(inner[to + i]));
            }
            law_trim_takes_white_space_only(a, raw[k], b);
        }
        if parts.len() == 1 {
            assert(inner == parts[0]);
        } else if content.len() == 0 {
            assert(content =~= Seq::<char>::empty());
            assert(raw.len() == 1);
        }
    }
}

/// A text has components exactly where, without the white space round it, it starts with an
/// opening bracket and ends with a closing one.
pub proof fn law_lists_stand_in_brackets(text: Seq<char>)
    ensures
        components(text) is Some <==> trim(text).len() > 0 && trim(text).first() == '[' && trim(
            text,
        ).last() == ']',
{
}

/// The bytes of a vector are those of its components, in their order, four for each.
pub proof fn law_words_keep_their_order(words: Seq<[u8; 4]>)
    ensures
        words_bytes(words).len() == 4 * words.len(),
        forall|k: int|
            0 <= k < words.len() ==> words_bytes(words).subrange(4 * k, 4 * k + 4) == (
            #[trigger] words[k])@,
    decreases words.len(),
{
    lemma_words_bytes_len(words);
    if words.len() > 0 {
        let front = words.drop_last();
        law_words_keep_their_order(front);
        lemma_words_bytes_len(front);
        let bytes = words_bytes(words);
        assert forall|k: int| 0 <= k < words.len() implies bytes.subrange(4 * k, 4 * k + 4) == (
        #[trigger] words[k])@ by {
            if k < front.len() {
                assert(bytes.subrange(4 * k, 4 * k + 4) =~= words_bytes(front).subrange(
                    4 * k,
                    4 * k + 4,
                ));
                assert(front[k] == words[k]);
            } else {
                assert(bytes.subrange(4 * k, 4 * k + 4) =~= words[k]@);
            }
        }
    }
}

/// A row that is a list in UTF-8, with as many parts as the vector has components, each of which
/// the reader takes: it is not refused, and it becomes the words that the reader gives, each at
/// the place of its part.
pub proof fn law_lists_become_their_words<F: Fn(&str) -> Option<[u8; 4]>>(
    parse: F,
    before: Seq<char>,
    parts: Seq<Seq<char>>,
    after: Seq<char>,
    words: Seq<[u8; 4]>,
    bytes: Seq<u8>,
)
    requires
        forall|i: int| 0 <= i < before.len() ==> is_white_space(before[i]),
        forall|i: int| 0 <= i < after.len() ==> is_white_space(after[i]),
        forall|k: int| 0 <= k < parts.len() ==> !(#[trigger] parts[k]).contains(','),
        !(parts.len() == 1 && trim(parts[0]).len() == 0),
        words.len() == parts.len(),
        forall|k: int, t: &str, word: Option<[u8; 4]>|
            0 <= k < parts.len() && t@ == trim(parts[k]) && #[trigger] call_ensures(
                parse,
                (t,),
                word,
            ) ==> word == Some(#[trigger] words[k]),
    ensures
        ({
            let row = encode_utf8(before + written_list(parts) + after);
            &&& !row_refused(parse, row, parts.len())
            &&& row_becomes(parse, row, parts.len(), bytes) ==> {
                &&& bytes.len() == 4 * parts.len()
                &&& forall|k: int|
                    0 <= k < parts.len() ==> bytes.subrange(4 * k, 4 * k + 4) == (
                    #[trigger] words[k])@
            }
        }),
{
    let text = before + written_list(parts) + after;
    let row = encode_utf8(text);
    encode_utf8_valid_utf8(text);
    encode_utf8_decode_utf8(text);
    law_components_are_the_parts(before, parts, after);
    let texts = components(text)->0;
    let dim = parts.len();
    if text_refused(parse, text, dim) {
        let k = choose|k: int|
            0 <= k < texts.len() && reads_as(parse, #[trigger] components(text)->0[k], None);
        assert(texts[k] == trim(parts[k]));
        let t = choose|t: &str| t@ == texts[k] && call_ensures(parse, (t,), None);
        let word = words[k];
        assert(None::<[u8; 4]> == Some(word));
    }
    if row_becomes(parse, row, dim, bytes) {
        let read = words_of(parse, text, dim, bytes);
        lemma_words_of(parse, text, dim, bytes);
        assert forall|k: int| 0 <= k < dim implies read[k] == #[trigger] words[k] by {
            assert(reads_as(parse, texts[k], Some(read[k])));
            let t = choose|t: &str| t@ == texts[k] && call_ensures(parse, (t,), Some(read[k]));
            assert(texts[k] == trim(parts[k]));
        }
        assert(read =~= words);
        law_words_keep_their_order(words);
    }
}

/// A row that is no list in UTF-8 is taken as it is where it has four bytes for each component,
/// and refused where it has not, whatever the reader takes.
pub proof fn law_other_rows_stay<F: Fn(&str) -> Option<[u8; 4]>>(
    parse: F,
    row: Seq<u8>,
    dim: nat,
    bytes: Seq<u8>,
)
    requires
        valid_utf8(row) ==> {
            let list = trim(decode_utf8(row));
            !(list.len() > 0 && list.first() == '[' && list.last() == ']')
        },
    ensures
        row_becomes(parse, row, dim, bytes) <==> row.len() == 4 * dim && bytes == row,
        row_refused(parse, row, dim) <==> row.len() != 4 * dim,
{
}

/// A list in UTF-8 that has another number of parts than the vector has components, or a part
/// that the reader refuses, is a row like any other: it is taken as it is where it has four
/// bytes for each component, and refused where it has not.
pub proof fn law_unread_lists_stay<F: Fn(&str) -> Option<[u8; 4]>>(
    parse: F,
    before: Seq<char>,
    parts: Seq<Seq<char>>,
    after: Seq<char>,
    dim: nat,
    bytes: Seq<u8>,
)
    requires
        forall|i: int| 0 <= i < before.len() ==> is_white_space(before[i]),
        forall|i: int| 0 <= i < after.len() ==> is_white_space(after[i]),
        forall|k: int| 0 <= k < parts.len() ==> !(#[trigger] parts[k]).contains(','),
        !(parts.len() == 1 && trim(parts[0]).len() == 0),
        parts.len() != dim || exists|k: int|
            {
                &&& 0 <= k < parts.len()
                &&& forall|t: &str, word: Option<[u8; 4]>|
                    t@ == trim(#[trigger] parts[k]) && #[trigger] call_ensures(parse, (t,), word)
                        ==> word is None
                &&& exists|t: &str|
                    t@ == trim(parts[k]) && #[trigger] call_ensures(parse, (t,), None)
            },
    ensures
        ({
            let row = encode_utf8(before + written_list(parts) + after);
            &&& row_becomes(parse, row, dim, bytes) <==> row.len() == 4 * dim && bytes == row
            &&& row_refused(parse, row, dim) <==> row.len() != 4 * dim
        }),
{
    let text = before + written_list(parts) + after;
    encode_utf8_valid_utf8(text);
    encode_utf8_decode_utf8(text);
    law_components_are_the_parts(before, parts, after);
    let texts = components(text)->0;
    if parts.len() == dim {
        let k = choose|k: int|
            {
                &&& 0 <= k < parts.len()
                &&& forall|t: &str, word: Option<[u8; 4]>|
                    t@ == trim(#[trigger] parts[k]) && #[trigger] call_ensures(parse, (t,), word)
                        ==> word is None
                &&& exists|t: &str|
                    t@ == trim(parts[k]) && #[trigger] call_ensures(parse, (t,), None)
            };
        assert(texts[k] == trim(parts[k]));
        assert(reads_as(parse, texts[k], None));
        assert(reads_as(parse, components(text)->0[k], None));
        if text_reads_as(parse, text, dim, bytes) {
            let read = words_of(parse, text, dim, bytes);
            lemma_words_of(parse, text, dim, bytes);
            assert(reads_as(parse, texts[k], Some(read[k])));
        }
    }
}

} // verus!
