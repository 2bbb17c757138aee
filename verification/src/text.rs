//! Text: decimal numerals, white space, splitting, and the way from bytes to text.
use vstd::prelude::*;
use vstd::string::*;
use vstd::utf8::{decode_utf8, valid_utf8};

verus! {

/// The digit character of a number below ten.
pub open spec fn digit_char(d: nat) -> char {
    (('0' as u32) + d) as char
}

/// The decimal numeral of a number, without leading zeros.
pub open spec fn decimal(n: nat) -> Seq<char>
    decreases n,
{
    if n < 10 {
        seq![digit_char(n)]
    } else {
        decimal(n / 10).push(digit_char(n % 10))
    }
}

/// The numeral of a number below ten.
fn digit_text(d: u64) -> (text: &'static str)
    requires
        d < 10,
    ensures
        text@ == seq![digit_char(d as nat)],
{
    proof {
        reveal_strlit("0");
        reveal_strlit("1");
        reveal_strlit("2");
        reveal_strlit("3");
        reveal_strlit("4");
        reveal_strlit("5");
        reveal_strlit("6");
        reveal_strlit("7");
        reveal_strlit("8");
        reveal_strlit("9");
    }
    match d {
        0 => "0",
        1 => "1",
        2 => "2",
        3 => "3",
        4 => "4",
        5 => "5",
        6 => "6",
        7 => "7",
        8 => "8",
        _ => "9",
    }
}

/// Writes a number as its decimal numeral.
pub fn decimal_string(n: u64) -> (text: String)
    ensures
        text@ == decimal(n as nat),
    decreases n,
{
    if n < 10 {
        digit_text(n).to_owned()
    } else {
        let mut text = decimal_string(n / 10);
        text.append(digit_text(n % 10));
        text
    }
}

/// The characters that Unicode gives the property `White_Space`.
pub open spec fn is_white_space(c: char) -> bool {
    ||| '\u{9}' <= c <= '\u{d}'
    ||| c == ' '
    ||| c == '\u{85}'
    ||| c == '\u{a0}'
    ||| c == '\u{1680}'
    ||| '\u{2000}' <= c <= '\u{200a}'
    ||| c == '\u{2028}'
    ||| c == '\u{2029}'
    ||| c == '\u{202f}'
    ||| c == '\u{205f}'
    ||| c == '\u{3000}'
}

/// Whether a character is white space.
pub fn white_space(c: char) -> (yes: bool)
    ensures
        yes == is_white_space(c),
{
    (c >= '\u{9}' && c <= '\u{d}') || c == ' ' || c == '\u{85}' || c == '\u{a0}' || c == '\u{1680}'
        || (c >= '\u{2000}' && c <= '\u{200a}') || c == '\u{2028}' || c == '\u{2029}' || c
        == '\u{202f}' || c == '\u{205f}' || c == '\u{3000}'
}

/// Text without the white space that it starts with.
pub open spec fn trim_start(text: Seq<char>) -> Seq<char>
    decreases text.len(),
{
    if text.len() > 0 && is_white_space(text.first()) {
        trim_start(text.drop_first())
    } else {
        text
    }
}

/// Text without the white space that it ends with.
pub open spec fn trim_end(text: Seq<char>) -> Seq<char>
    decreases text.len(),
{
    if text.len() > 0 && is_white_space(text.last()) {
        trim_end(text.drop_last())
    } else {
        text
    }
}

/// Text without the white space at either end.
pub open spec fn trim(text: Seq<char>) -> Seq<char> {
    trim_end(trim_start(text))
}

/// The parts into which the occurrences of a separator cut a text. There is always one more
/// part than there are separators.
pub open spec fn split(text: Seq<char>, sep: char) -> Seq<Seq<char>>
    decreases text.len(),
{
    if text.len() == 0 {
        seq![Seq::<char>::empty()]
    } else {
        let parts = split(text.drop_last(), sep);
        if text.last() == sep {
            parts.push(Seq::empty())
        } else {
            parts.drop_last().push(parts.last().push(text.last()))
        }
    }
}

/// A split always has a part.
pub proof fn lemma_split_len(text: Seq<char>, sep: char)
    ensures
        split(text, sep).len() >= 1,
    decreases text.len(),
{
    if text.len() > 0 {
        lemma_split_len(text.drop_last(), sep);
    }
}

/// A text without the separator is the only part of its split.
pub proof fn lemma_split_without(text: Seq<char>, sep: char)
    requires
        !text.contains(sep),
    ensures
        split(text, sep) == seq![text],
    decreases text.len(),
{
    if text.len() > 0 {
        let front = text.drop_last();
        assert forall|i: int| 0 <= i < front.len() implies front[i] != sep by {
            assert(text.contains(text[i]));
        }
        assert(text.contains(text.last()));
        lemma_split_without(front, sep);
        assert(front.push(text.last()) =~= text);
        assert(split(text, sep) =~= seq![text]);
    } else {
        assert(text =~= Seq::empty());
    }
}

/// Two texts with a separator between them split into the parts of the one and those of the
/// other.
pub proof fn lemma_split_joined(a: Seq<char>, sep: char, b: Seq<char>)
    ensures
        split(a.push(sep) + b, sep) == split(a, sep) + split(b, sep),
    decreases b.len(),
{
    let whole = a.push(sep) + b;
    if b.len() == 0 {
        assert(whole =~= a.push(sep));
        assert(whole.drop_last() =~= a);
        assert(split(whole, sep) =~= split(a, sep) + split(b, sep));
    } else {
        lemma_split_joined(a, sep, b.drop_last());
        lemma_split_len(b.drop_last(), sep);
        assert(whole.drop_last() =~= a.push(sep) + b.drop_last());
        assert(whole.last() == b.last());
        assert(split(whole, sep) =~= split(a, sep) + split(b, sep));
    }
}

/// The views of a list of strings.
pub open spec fn views(texts: Seq<String>) -> Seq<Seq<char>> {
    Seq::new(texts.len(), |i: int| texts[i]@)
}

/// The characters of a text.
pub fn chars_of(text: &str) -> (chars: Vec<char>)
    ensures
        chars@ == text@,
{
    let mut chars: Vec<char> = Vec::new();
    for c in it: text.chars()
        invariant
            chars@ == it.seq().take(it.index()),
            it.seq() == text@,
    {
        chars.push(c);
    }
    chars
}

/// The part of a trimmed text that starts at `from` and ends before `to`: where the white space
/// before and after it is.
proof fn lemma_trim_bounds(text: Seq<char>, from: int, to: int)
    requires
        0 <= from <= to <= text.len(),
        forall|i: int| 0 <= i < from ==> is_white_space(text[i]),
        forall|i: int| to <= i < text.len() ==> is_white_space(text[i]),
        from < to ==> !is_white_space(text[from]) && !is_white_space(text[to - 1]),
    ensures
        trim(text) == text.subrange(from, to),
    decreases text.len(),
{
    if from > 0 {
        let rest = text.drop_first();
        assert(rest.subrange(from - 1, to - 1) =~= text.subrange(from, to));
        lemma_trim_bounds(rest, from - 1, to - 1);
    } else if from == to {
        assert(text.subrange(from, to) =~= Seq::<char>::empty());
        lemma_all_white_space(text);
    } else {
        lemma_trim_end_bounds(text, to);
    }
}

proof fn lemma_all_white_space(text: Seq<char>)
    requires
        forall|i: int| 0 <= i < text.len() ==> is_white_space(text[i]),
    ensures
        trim_start(text) == Seq::<char>::empty(),
        trim(text) == Seq::<char>::empty(),
    decreases text.len(),
{
    if text.len() > 0 {
        lemma_all_white_space(text.drop_first());
    } else {
        assert(text =~= Seq::empty());
    }
}

proof fn lemma_trim_end_bounds(text: Seq<char>, to: int)
    requires
        0 < to <= text.len(),
        forall|i: int| to <= i < text.len() ==> is_white_space(text[i]),
        !is_white_space(text[to - 1]),
    ensures
        trim_end(text) == text.subrange(0, to),
    decreases text.len(),
{
    if to < text.len() {
        lemma_trim_end_bounds(text.drop_last(), to);
        assert(text.drop_last().subrange(0, to) =~= text.subrange(0, to));
    } else {
        assert(text.subrange(0, to) =~= text);
    }
}

/// Cuts the white space off both ends of a text.
pub fn trim_text(text: &str) -> (trimmed: &str)
    ensures
        trimmed@ == trim(text@),
{
    let chars = chars_of(text);
    let mut from: usize = 0;
    while from < chars.len() && white_space(chars[from])
        invariant
            from <= chars@.len(),
            forall|i: int| 0 <= i < from ==> is_white_space(chars@[i]),
        decreases chars@.len() - from,
    {
        from += 1;
    }
    let mut to: usize = chars.len();
    while to > from && white_space(chars[to - 1])
        invariant
            from <= to <= chars@.len(),
            forall|i: int| to <= i < chars@.len() ==> is_white_space(chars@[i]),
        decreases to,
    {
        to -= 1;
    }
    proof {
        lemma_trim_bounds(text@, from as int, to as int);
    }
    text.substring_char(from, to)
}

/// Cuts a text at every occurrence of a separator.
pub fn split_text(text: &str, sep: char) -> (parts: Vec<String>)
    ensures
        views(parts@) == split(text@, sep),
{
    let chars = chars_of(text);
    let mut parts: Vec<String> = Vec::new();
    let mut start: usize = 0;
    let mut i: usize = 0;
    assert(text@.subrange(0, 0) =~= Seq::<char>::empty());
    assert(text@.take(0) =~= Seq::<char>::empty());
    assert(views(parts@).push(text@.subrange(0, 0)) =~= split(text@.take(0), sep));
    while i < chars.len()
        invariant
            chars@ == text@,
            start <= i <= chars@.len(),
            views(parts@).push(text@.subrange(start as int, i as int)) == split(
                text@.take(i as int),
                sep,
            ),
        decreases chars@.len() - i,
    {
        let ghost before = views(parts@);
        assert(text@.take(i + 1).drop_last() =~= text@.take(i as int));
        assert(text@.take(i + 1).last() == chars@[i as int]);
        if chars[i] == sep {
            parts.push(text.substring_char(start, i).to_owned());
            assert(views(parts@) =~= before.push(text@.subrange(start as int, i as int)));
            start = i + 1;
            assert(text@.subrange(start as int, i + 1) =~= Seq::<char>::empty());
        } else {
            assert(text@.subrange(start as int, i + 1) =~= text@.subrange(
                start as int,
                i as int,
            ).push(chars@[i as int]));
            assert(before.push(text@.subrange(start as int, i as int)).drop_last() =~= before);
        }
        i += 1;
    }
    let ghost before = views(parts@);
    parts.push(text.substring_char(start, i).to_owned());
    assert(views(parts@) =~= before.push(text@.subrange(start as int, i as int)));
    assert(text@.take(i as int) =~= text@);
    parts
}

/// `String::from_utf8`: the text that the bytes encode, where they are UTF-8, and nothing else.
#[verifier::external_body]
pub(crate) fn text_from_utf8(bytes: &[u8]) -> (text: Option<String>)
    ensures
        text is Some <==> valid_utf8(bytes@),
        text matches Some(s) ==> s@ == decode_utf8(bytes@),
{
    String::from_utf8(bytes.to_vec()).ok()
}

/// What `String::from_utf8_lossy` makes of some bytes.
pub uninterp spec fn utf8_lossy(bytes: Seq<u8>) -> Seq<char>;

/// `String::from_utf8_lossy`: the text that the bytes encode where they are UTF-8. Which
/// replacement characters stand for bytes that are not is left to the name.
#[verifier::external_body]
pub(crate) fn text_from_utf8_lossy(bytes: &[u8]) -> (text: String)
    ensures
        text@ == utf8_lossy(bytes@),
        valid_utf8(bytes@) ==> text@ == decode_utf8(bytes@),
{
    String::from_utf8_lossy(bytes).into_owned()
}

/// The number that decimal digits are.
pub open spec fn numeral_value(digits: Seq<char>) -> int
    decreases digits.len(),
{
    if digits.len() == 0 {
        0
    } else {
        numeral_value(digits.drop_last()) * 10 + (digits.last() as int - '0' as int)
    }
}

/// The numeral of a number is made of decimal digits, has no leading zero, and is worth that
/// number.
pub proof fn law_decimal_is_the_number(n: nat)
    ensures
        numeral_value(decimal(n)) == n,
        decimal(n).len() >= 1,
        forall|i: int| 0 <= i < decimal(n).len() ==> '0' <= #[trigger] decimal(n)[i] <= '9',
        decimal(n).len() > 1 ==> decimal(n)[0] != '0',
        n == 0 ==> decimal(n) == seq!['0'],
        n > 0 ==> decimal(n)[0] != '0',
    decreases n,
{
    if n < 10 {
        assert(decimal(n).drop_last() =~= Seq::<char>::empty());
        assert(decimal(n).last() == digit_char(n));
        assert(numeral_value(decimal(n).drop_last()) == 0);
    } else {
        law_decimal_is_the_number(n / 10);
        assert(decimal(n).drop_last() =~= decimal(n / 10));
        assert(decimal(n).last() == digit_char(n % 10));
        assert(decimal(n)[0] == decimal(n / 10)[0]);
    }
}

/// Where the white space at the ends of a text stops.
pub proof fn lemma_trim_splits(text: Seq<char>) -> (bounds: (int, int))
    ensures
        0 <= bounds.0 <= bounds.1 <= text.len(),
        forall|i: int| 0 <= i < bounds.0 ==> is_white_space(text[i]),
        forall|i: int| bounds.1 <= i < text.len() ==> is_white_space(text[i]),
        bounds.0 < bounds.1 ==> !is_white_space(text[bounds.0]) && !is_white_space(
            text[bounds.1 - 1],
        ),
        trim(text) == text.subrange(bounds.0, bounds.1),
    decreases text.len(),
{
    if text.len() == 0 {
        assert(text.subrange(0, 0) =~= text);
        (0, 0)
    } else if is_white_space(text[0]) {
        let rest = text.drop_first();
        let (from, to) = lemma_trim_splits(rest);
        assert forall|i: int| 0 <= i < from + 1 implies is_white_space(text[i]) by {
            if i > 0 {
                assert(rest[i - 1] == text[i]);
            }
        }
        assert forall|i: int| to + 1 <= i < text.len() implies is_white_space(text[i]) by {
            assert(rest[i - 1] == text[i]);
        }
        lemma_trim_bounds(text, from + 1, to + 1);
        (from + 1, to + 1)
    } else if is_white_space(text.last()) {
        let rest = text.drop_last();
        let (from, to) = lemma_trim_splits(rest);
        assert(from == 0) by {
            if from > 0 {
                assert(is_white_space(rest[0]));
            }
        }
        assert forall|i: int| to <= i < text.len() implies is_white_space(text[i]) by {
            if i < rest.len() {
                assert(rest[i] == text[i]);
            }
        }
        lemma_trim_bounds(text, from, to);
        (from, to)
    } else {
        lemma_trim_bounds(text, 0, text.len() as int);
        (0, text.len() as int)
    }
}

/// Trimming takes away the white space at both ends of a text and nothing else: white space that
/// is added there makes no difference, and a text that has none there stays as it is.
pub proof fn law_trim_takes_white_space_only(before: Seq<char>, text: Seq<char>, after: Seq<char>)
    requires
        forall|i: int| 0 <= i < before.len() ==> is_white_space(before[i]),
        forall|i: int| 0 <= i < after.len() ==> is_white_space(after[i]),
    ensures
        trim(before + text + after) == trim(text),
        text.len() == 0 || (!is_white_space(text.first()) && !is_white_space(text.last()))
            ==> trim(text) == text,
{
    let whole = before + text + after;
    let n = before.len() as int;
    let (from, to) = lemma_trim_splits(text);
    assert forall|i: int| 0 <= i < n + from implies is_white_space(whole[i]) by {
        if i < n {
            assert(whole[i] == before[i]);
        } else {
            assert(whole[i] == text[i - n]);
        }
    }
    assert forall|i: int| n + to <= i < whole.len() implies is_white_space(whole[i]) by {
        if i < n + text.len() {
            assert(whole[i] == text[i - n]);
        } else {
            assert(whole[i] == after[i - n - text.len()]);
        }
    }
    lemma_trim_bounds(whole, n + from, n + to);
    assert(whole.subrange(n + from, n + to) =~= text.subrange(from, to));
    if text.len() == 0 || (!is_white_space(text.first()) && !is_white_space(text.last())) {
        lemma_trim_bounds(text, 0, text.len() as int);
        assert(text.subrange(0, text.len() as int) =~= text);
    }
}

/// Texts with a separator between each two of them.
pub open spec fn joined(parts: Seq<Seq<char>>, sep: char) -> Seq<char>
    decreases parts.len(),
{
    if parts.len() == 0 {
        Seq::empty()
    } else if parts.len() == 1 {
        parts[0]
    } else {
        joined(parts.drop_last(), sep).push(sep) + parts.last()
    }
}

/// Splitting undoes joining: texts without the separator that were joined by it are the parts,
/// in their order.
pub proof fn law_split_undoes_join(parts: Seq<Seq<char>>, sep: char)
    requires
        parts.len() > 0,
        forall|i: int| 0 <= i < parts.len() ==> !(#[trigger] parts[i]).contains(sep),
    ensures
        split(joined(parts, sep), sep) == parts,
    decreases parts.len(),
{
    let last = parts.len() - 1;
    lemma_split_without(parts[last], sep);
    if parts.len() == 1 {
        assert(seq![parts[0]] =~= parts);
    } else {
        let front = parts.drop_last();
        law_split_undoes_join(front, sep);
        lemma_split_joined(joined(front, sep), sep, parts[last]);
        assert(front + seq![parts[last]] =~= parts);
    }
}

/// Text without the separator before a text lengthens its first part.
pub proof fn lemma_split_after(before: Seq<char>, text: Seq<char>, sep: char)
    requires
        !before.contains(sep),
    ensures
        split(before + text, sep) == split(text, sep).update(0, before + split(text, sep)[0]),
    decreases text.len(),
{
    lemma_split_len(text, sep);
    if text.len() == 0 {
        assert(before + text =~= before);
        lemma_split_without(before, sep);
        assert(before + Seq::<char>::empty() =~= before);
        assert(split(before + text, sep) =~= split(text, sep).update(
            0,
            before + split(text, sep)[0],
        ));
    } else {
        let front = text.drop_last();
        let last = text.last();
        lemma_split_after(before, front, sep);
        lemma_split_len(front, sep);
        assert((before + text).drop_last() =~= before + front);
        assert((before + text).last() == last);
        let parts = split(front, sep);
        if last != sep && parts.len() == 1 {
            assert((before + parts[0]).push(last) =~= before + parts[0].push(last));
        }
        assert(split(before + text, sep) =~= split(text, sep).update(
            0,
            before + split(text, sep)[0],
        ));
    }
}

/// Text without the separator after a text lengthens its last part.
pub proof fn lemma_split_before(text: Seq<char>, after: Seq<char>, sep: char)
    requires
        !after.contains(sep),
    ensures
        split(text + after, sep) == split(text, sep).drop_last().push(
            split(text, sep).last() + after,
        ),
    decreases after.len(),
{
    lemma_split_len(text, sep);
    let parts = split(text, sep);
    if after.len() == 0 {
        assert(text + after =~= text);
        assert(parts.last() + after =~= parts.last());
        assert(parts.drop_last().push(parts.last()) =~= parts);
    } else {
        let front = after.drop_last();
        assert forall|i: int| 0 <= i < front.len() implies front[i] != sep by {
            assert(after.contains(after[i]));
        }
        assert(after.contains(after.last()));
        lemma_split_before(text, front, sep);
        assert((text + after).drop_last() =~= text + front);
        assert((text + after).last() == after.last());
        assert((parts.last() + front).push(after.last()) =~= parts.last() + after);
        let before = parts.drop_last();
        assert(before.push(parts.last() + front).drop_last() =~= before);
    }
}


} // verus!
