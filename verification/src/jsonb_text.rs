//! From a row of a binary column to JSONB, by the `jsonb` crate.
//!
//! `jsonb` first takes the bytes for binary JSONB and, where they are not, for JSON text. Its
//! binary reader trusts some lengths and types that it finds in the bytes and panics where they
//! are impossible. The larger part of this module says which bytes those are.
use jsonb::Value as JsonbValue;
use vstd::prelude::*;

verus! {

/// How the binary reader fares with a value.
pub enum Pass {
    /// It panics.
    Fault,
    /// It refuses the bytes.
    Refused,
    /// It reads the value; what follows the value starts here.
    Rest(nat),
}

/// The number that the four bytes at `p` are, the most significant first, where of the first
/// byte only the remainder by `modulus` counts.
pub open spec fn low_bits_at(b: Seq<u8>, p: nat, modulus: nat) -> nat {
    let at = |i: int| b[p + i] as nat;
    (at(0) % modulus) * 0x100_0000 + at(1) * 0x1_0000 + at(2) * 0x100 + at(3)
}

/// The kind of container that a header at `p` announces: a scalar is 1, an object 2, an array 4.
pub open spec fn container_kind(b: Seq<u8>, p: nat) -> nat {
    (b[p as int] as nat) / 32
}

/// The number of members that a header at `p` announces.
pub open spec fn container_count(b: Seq<u8>, p: nat) -> nat {
    low_bits_at(b, p, 32)
}

/// The type in the entry at `e`: a string is 1, a number 2, a container 5, and null, false and
/// true are 0, 3 and 4.
pub open spec fn entry_type(b: Seq<u8>, e: nat) -> nat {
    ((b[e as int] as nat) / 16) % 8
}

/// The payload size in the entry at `e`.
pub open spec fn entry_size(b: Seq<u8>, e: nat) -> nat {
    low_bits_at(b, e, 16)
}

/// Whether the `size` bytes at `p` make the reader of numbers panic: it wants a type byte, and
/// eight more after that of a float.
pub open spec fn number_faults(b: Seq<u8>, p: nat, size: nat) -> bool {
    size == 0 || (b[p as int] == 0x60 && size != 9)
}

/// Whether the reader of numbers takes the `size` bytes at `p`: zero, not a number or an
/// infinity, an integer of one, two, four or eight bytes, or a float.
pub open spec fn number_taken(b: Seq<u8>, p: nat, size: nat) -> bool {
    let t = b[p as int];
    ||| t == 0 || t == 0x10 || t == 0x20 || t == 0x30 || t == 0x60
    ||| (t == 0x40 || t == 0x50) && (size == 2 || size == 3 || size == 5 || size == 9)
}

/// How the reader fares with the container whose header is at `p`.
pub open spec fn container_pass(b: Seq<u8>, p: nat) -> Pass
    decreases b.len() - p, 0int, 0int,
{
    let n = container_count(b, p);
    if p + 4 > b.len() {
        Pass::Refused
    } else if container_kind(b, p) == 1 {
        if p + 8 > b.len() {
            Pass::Refused
        } else {
            entry_pass(b, p + 4, p + 8)
        }
    } else if container_kind(b, p) == 4 {
        if p + 4 + 4 * n > b.len() {
            Pass::Refused
        } else {
            entries_pass(b, p + 4, n, p + 4 + 4 * n)
        }
    } else if container_kind(b, p) == 2 {
        if p + 4 + 8 * n > b.len() {
            Pass::Refused
        } else {
            match entries_pass(b, p + 4, n, p + 4 + 8 * n) {
                Pass::Rest(q) => if p < q <= b.len() {
                    members_pass(b, p + 4, p + 4 + 8 * n, p + 4 + 4 * n, n, q)
                } else {
                    Pass::Refused
                },
                pass => pass,
            }
        }
    } else {
        Pass::Refused
    }
}

/// How the reader fares with the value whose entry is at `e` and whose payload is at `p`.
pub open spec fn entry_pass(b: Seq<u8>, e: nat, p: nat) -> Pass
    decreases b.len() - p, 1int, 0int,
{
    let t = entry_type(b, e);
    let size = entry_size(b, e);
    if t == 0 || t == 3 || t == 4 {
        Pass::Rest(p)
    } else if t == 1 {
        if p + size > b.len() {
            Pass::Refused
        } else {
            Pass::Rest(p + size)
        }
    } else if t == 2 {
        if p + size > b.len() {
            Pass::Refused
        } else if number_faults(b, p, size) {
            Pass::Fault
        } else if number_taken(b, p, size) {
            Pass::Rest(p + size)
        } else {
            Pass::Refused
        }
    } else if t == 5 && p <= b.len() {
        container_pass(b, p)
    } else {
        Pass::Refused
    }
}

/// How the reader fares with `n` values whose entries start at `e` and whose payloads start
/// at `p`.
pub open spec fn entries_pass(b: Seq<u8>, e: nat, n: nat, p: nat) -> Pass
    decreases b.len() - p, 2int, n,
{
    if n == 0 {
        Pass::Rest(p)
    } else {
        match entry_pass(b, e, p) {
            Pass::Rest(q) => if p <= q <= b.len() {
                entries_pass(b, e + 4, (n - 1) as nat, q)
            } else {
                Pass::Refused
            },
            pass => pass,
        }
    }
}

/// Where the payload of a key ends whose entry is at `e` and whose payload is at `p`; `None`
/// where the key is not text. A key is text that stands there itself or in scalar containers,
/// one in the other.
pub open spec fn key_end(b: Seq<u8>, e: nat, p: nat) -> Option<nat>
    decreases b.len() - p,
{
    if entry_type(b, e) == 1 {
        Some(p + entry_size(b, e))
    } else if entry_type(b, e) == 5 && p + 8 <= b.len() && container_kind(b, p) == 1 {
        key_end(b, p + 4, p + 8)
    } else {
        None
    }
}

/// How the reader fares with the values of `n` members of an object whose keys it has read: the
/// entries of the keys start at `k` and their payloads at `kp`, the entries of the values start
/// at `e` and their payloads at `p`. A key that is not text makes it panic when the turn of its
/// value comes.
pub open spec fn members_pass(b: Seq<u8>, k: nat, kp: nat, e: nat, n: nat, p: nat) -> Pass
    decreases b.len() - p, 2int, n,
{
    if n == 0 {
        Pass::Rest(p)
    } else {
        match key_end(b, k, kp) {
            Some(kq) => match entry_pass(b, e, p) {
                Pass::Rest(q) => if p <= q <= b.len() {
                    members_pass(b, k + 4, kq, e + 4, (n - 1) as nat, q)
                } else {
                    Pass::Refused
                },
                pass => pass,
            },
            None => Pass::Fault,
        }
    }
}

/// Whether `jsonb` comes to an answer on these bytes, be it a value or an error.
pub open spec fn jsonb_answers(b: Seq<u8>) -> bool {
    !(container_pass(b, 0) is Fault)
}

/// How the binary reader fares with a value, as a result of a check.
enum Step {
    Fault,
    Refused,
    Rest(usize),
}

spec fn step_is(step: Step, pass: Pass) -> bool {
    match step {
        Step::Fault => pass is Fault,
        Step::Refused => pass is Refused,
        Step::Rest(q) => pass == Pass::Rest(q as nat),
    }
}

fn low_bits(b: &[u8], p: usize, modulus: u8) -> (n: u32)
    requires
        p + 4 <= b@.len(),
        modulus == 16 || modulus == 32,
    ensures
        n == low_bits_at(b@, p as nat, modulus as nat),
        n < 0x2000_0000,
{
    ((b[p] % modulus) as u32) * 0x100_0000 + (b[p + 1] as u32) * 0x1_0000 + (b[p + 2] as u32)
        * 0x100 + (b[p + 3] as u32)
}

fn check_container(b: &[u8], p: usize) -> (step: Step)
    requires
        p <= b@.len(),
    ensures
        step_is(step, container_pass(b@, p as nat)),
        step matches Step::Rest(q) ==> p < q <= b@.len(),
    decreases b@.len() - p, 0int,
{
    let len: usize = b.len();
    let left: usize = len - p;
    if left < 4 {
        return Step::Refused;
    }
    let kind: u8 = b[p] / 32;
    let n: usize = low_bits(b, p, 32) as usize;
    if kind == 1 {
        if left < 8 {
            Step::Refused
        } else {
            check_entry(b, p + 4, p + 8)
        }
    } else if kind == 4 {
        if (left - 4) / 4 < n {
            Step::Refused
        } else {
            check_entries(b, p + 4, n, p + 4 + 4 * n)
        }
    } else if kind == 2 {
        if (left - 4) / 8 < n {
            return Step::Refused;
        }
        match check_entries(b, p + 4, n, p + 4 + 8 * n) {
            Step::Rest(q) => check_members(b, p + 4, p + 4 + 8 * n, p + 4 + 4 * n, n, q),
            step => step,
        }
    } else {
        Step::Refused
    }
}

fn check_entry(b: &[u8], e: usize, p: usize) -> (step: Step)
    requires
        e + 4 <= p <= b@.len(),
    ensures
        step_is(step, entry_pass(b@, e as nat, p as nat)),
        step matches Step::Rest(q) ==> p <= q <= b@.len(),
    decreases b@.len() - p, 1int,
{
    let t: u8 = (b[e] / 16) % 8;
    let size: usize = low_bits(b, e, 16) as usize;
    if t == 0 || t == 3 || t == 4 {
        Step::Rest(p)
    } else if t == 1 {
        if b.len() - p < size {
            Step::Refused
        } else {
            Step::Rest(p + size)
        }
    } else if t == 2 {
        if b.len() - p < size {
            Step::Refused
        } else if size == 0 {
            Step::Fault
        } else {
            let kind: u8 = b[p];
            if kind == 0x60 && size != 9 {
                Step::Fault
            } else if kind == 0 || kind == 0x10 || kind == 0x20 || kind == 0x30 || kind == 0x60
                || ((kind == 0x40 || kind == 0x50) && (size == 2 || size == 3 || size == 5 || size
                == 9)) {
                Step::Rest(p + size)
            } else {
                Step::Refused
            }
        }
    } else if t == 5 {
        check_container(b, p)
    } else {
        Step::Refused
    }
}

fn check_entries(b: &[u8], e: usize, n: usize, p: usize) -> (step: Step)
    requires
        e + 4 * n <= p <= b@.len(),
    ensures
        step_is(step, entries_pass(b@, e as nat, n as nat, p as nat)),
        step matches Step::Rest(q) ==> p <= q <= b@.len(),
    decreases b@.len() - p, 2int,
{
    let mut i: usize = 0;
    let mut q: usize = p;
    while i < n
        invariant
            i <= n,
            e + 4 * n <= p <= q <= b@.len(),
            entries_pass(b@, e as nat, n as nat, p as nat) == entries_pass(
                b@,
                (e + 4 * i) as nat,
                (n - i) as nat,
                q as nat,
            ),
        decreases n - i,
    {
        match check_entry(b, e + 4 * i, q) {
            Step::Rest(next) => {
                q = next;
            },
            step => {
                return step;
            },
        }
        i += 1;
    }
    Step::Rest(q)
}

/// Where the payload of a key ends that has been read, where it is text.
fn text_key_end(b: &[u8], e: usize, p: usize) -> (end: Option<usize>)
    requires
        e + 4 <= p <= b@.len(),
        entry_pass(b@, e as nat, p as nat) is Rest,
    ensures
        match end {
            Some(q) => key_end(b@, e as nat, p as nat) == Some(q as nat) && entry_pass(
                b@,
                e as nat,
                p as nat,
            ) == Pass::Rest(q as nat),
            None => key_end(b@, e as nat, p as nat) is None,
        },
    decreases b@.len() - p,
{
    let t: u8 = (b[e] / 16) % 8;
    if t == 1 {
        Some(p + low_bits(b, e, 16) as usize)
    } else if t == 5 && b.len() - p >= 8 && b[p] / 32 == 1 {
        assert(entry_pass(b@, e as nat, p as nat) == container_pass(b@, p as nat));
        text_key_end(b, p + 4, p + 8)
    } else {
        None
    }
}

fn check_members(b: &[u8], k: usize, kp: usize, e: usize, n: usize, p: usize) -> (step: Step)
    requires
        k + 4 * n <= kp <= b@.len(),
        e + 4 * n <= p <= b@.len(),
        entries_pass(b@, k as nat, n as nat, kp as nat) is Rest,
    ensures
        step_is(step, members_pass(b@, k as nat, kp as nat, e as nat, n as nat, p as nat)),
        step matches Step::Rest(q) ==> p <= q <= b@.len(),
    decreases b@.len() - p, 2int,
{
    let mut i: usize = 0;
    let mut kq: usize = kp;
    let mut q: usize = p;
    while i < n
        invariant
            i <= n,
            k + 4 * n <= kq <= b@.len(),
            e + 4 * n <= p <= q <= b@.len(),
            entries_pass(b@, (k + 4 * i) as nat, (n - i) as nat, kq as nat) is Rest,
            members_pass(b@, k as nat, kp as nat, e as nat, n as nat, p as nat) == members_pass(
                b@,
                (k + 4 * i) as nat,
                kq as nat,
                (e + 4 * i) as nat,
                (n - i) as nat,
                q as nat,
            ),
        decreases n - i,
    {
        match text_key_end(b, k + 4 * i, kq) {
            Some(next) => {
                kq = next;
            },
            None => {
                return Step::Fault;
            },
        }
        match check_entry(b, e + 4 * i, q) {
            Step::Rest(next) => {
                q = next;
            },
            step => {
                return step;
            },
        }
        i += 1;
    }
    Step::Rest(q)
}

/// Tells whether `jsonb` comes to an answer on these bytes.
pub fn answers(b: &[u8]) -> (yes: bool)
    ensures
        yes == jsonb_answers(b@),
{
    match check_container(b, 0) {
        Step::Fault => false,
        _ => true,
    }
}

/// `jsonb::Value`, a JSON value of any kind.
#[verifier::external_type_specification]
#[verifier::external_body]
pub struct ExJsonbValue<'a>(JsonbValue<'a>);

/// What a JSON value holds. A number is the bytes that stand for it in JSONB, a text its bytes in
/// UTF-8, and the keys of an object, in their order, have their values at the same places.
pub enum Json {
    Null,
    Bool(bool),
    Number(Seq<u8>),
    Text(Seq<u8>),
    Array(Seq<Json>),
    Object { keys: Seq<Seq<u8>>, values: Seq<Json> },
}

/// How many bytes the payload of a value takes in JSONB.
pub open spec fn payload_len(json: Json) -> nat
    decreases json,
{
    match json {
        Json::Null | Json::Bool(_) => 0,
        Json::Number(bytes) => bytes.len(),
        Json::Text(bytes) => bytes.len(),
        Json::Array(items) => 4 + 4 * items.len() + payloads_len(items),
        Json::Object { keys, values } => 4 + 8 * keys.len() + texts_len(keys) + payloads_len(
            values,
        ),
    }
}

/// How many bytes the payloads of values take in JSONB.
pub open spec fn payloads_len(items: Seq<Json>) -> nat
    decreases items,
{
    if items.len() == 0 {
        0
    } else {
        payloads_len(items.drop_last()) + payload_len(items[items.len() - 1])
    }
}

/// How many bytes texts have together.
pub open spec fn texts_len(texts: Seq<Seq<u8>>) -> nat
    decreases texts.len(),
{
    if texts.len() == 0 {
        0
    } else {
        texts_len(texts.drop_last()) + texts.last().len()
    }
}

/// How many bytes a value takes in JSONB: a scalar has a header and an entry before its payload.
pub open spec fn jsonb_len(json: Json) -> nat {
    match json {
        Json::Array(_) | Json::Object { .. } => payload_len(json),
        _ => 8 + payload_len(json),
    }
}

/// Whether the entry of a value in a container has room for its size. An entry has 28 bits for
/// it, and three above them for the type. A text needs all of its size. Of the size of a
/// container nothing is read, so that it has room as long as the type is not changed: bit 29 is
/// the one that would change it.
pub open spec fn entry_has_room(json: Json) -> bool {
    match json {
        Json::Text(bytes) => bytes.len() < 0x1000_0000,
        Json::Array(_) | Json::Object { .. } => payload_len(json) < 0x1_0000_0000 && (payload_len(
            json,
        ) / 0x2000_0000) % 2 == 0,
        _ => true,
    }
}

/// Whether JSONB has room for the sizes in a value: every entry has, and every header has for the
/// number of members, which takes 29 bits.
pub open spec fn json_fits(json: Json) -> bool
    decreases json,
{
    match json {
        Json::Array(items) => {
            &&& items.len() < 0x2000_0000
            &&& forall|i: int|
                0 <= i < items.len() ==> entry_has_room(#[trigger] items[i]) && json_fits(items[i])
        },
        Json::Object { keys, values } => {
            &&& keys.len() < 0x2000_0000
            &&& forall|i: int| 0 <= i < keys.len() ==> (#[trigger] keys[i]).len() < 0x1000_0000
            &&& forall|i: int|
                0 <= i < values.len() ==> entry_has_room(#[trigger] values[i]) && json_fits(
                    values[i],
                )
        },
        _ => entry_has_room(json),
    }
}

/// No payload takes more bytes than all payloads together.
proof fn lemma_payloads_len(items: Seq<Json>, i: int)
    requires
        0 <= i < items.len(),
    ensures
        payload_len(items[i]) <= payloads_len(items),
    decreases items.len(),
{
    if i < items.len() - 1 {
        lemma_payloads_len(items.drop_last(), i);
        assert(items.drop_last()[i] == items[i]);
    }
}

/// No text has more bytes than all texts together.
proof fn lemma_texts_len(texts: Seq<Seq<u8>>, i: int)
    requires
        0 <= i < texts.len(),
    ensures
        texts[i].len() <= texts_len(texts),
    decreases texts.len(),
{
    if i < texts.len() - 1 {
        lemma_texts_len(texts.drop_last(), i);
        assert(texts.drop_last()[i] == texts[i]);
    }
}

/// JSONB has room for the sizes in every value that takes less than 2^28 bytes.
pub proof fn lemma_small_json_fits(json: Json)
    requires
        payload_len(json) < 0x1000_0000,
    ensures
        entry_has_room(json),
        json_fits(json),
    decreases json,
{
    match json {
        Json::Array(items) => {
            assert forall|i: int| 0 <= i < items.len() implies entry_has_room(#[trigger] items[i])
                && json_fits(items[i]) by {
                lemma_payloads_len(items, i);
                lemma_small_json_fits(items[i]);
            }
        },
        Json::Object { keys, values } => {
            assert forall|i: int| 0 <= i < keys.len() implies (#[trigger] keys[i]).len()
                < 0x1000_0000 by {
                lemma_texts_len(keys, i);
            }
            assert forall|i: int| 0 <= i < values.len() implies entry_has_room(#[trigger] values[i])
                && json_fits(values[i]) by {
                lemma_payloads_len(values, i);
                lemma_small_json_fits(values[i]);
            }
        },
        _ => {},
    }
}

/// What a `jsonb::Value` holds.
pub uninterp spec fn value_json(value: JsonbValue<'_>) -> Json;

/// What the value holds that `jsonb::from_slice` reads from some bytes; `None` where it gives an
/// error.
pub uninterp spec fn jsonb_read(bytes: Seq<u8>) -> Option<Json>;

/// The JSONB that `jsonb::Value::to_vec` writes for a value that holds this.
pub uninterp spec fn jsonb_bytes(json: Json) -> Seq<u8>;

/// A row as JSONB; `None` where it is neither JSON text nor JSONB.
pub open spec fn jsonb_of(bytes: Seq<u8>) -> Option<Seq<u8>> {
    match jsonb_read(bytes) {
        Some(json) => Some(jsonb_bytes(json)),
        None => None,
    }
}

/// Whether `jsonb` reads the JSONB of a value back, where there is room for the sizes in it, and
/// takes as many bytes for it as it should.
pub open spec fn reads_back(json: Json) -> bool {
    let encoded = jsonb_bytes(json);
    &&& encoded.len() == jsonb_len(json)
    &&& json_fits(json) ==> jsonb_answers(encoded) && jsonb_read(encoded) == Some(json)
}

/// `jsonb::from_slice`: the value that the bytes are, as JSONB or as JSON text. Bytes on which
/// it panics are left out. What memory allows is not part of this: `from_slice` calls itself for
/// nested values, and it reserves room for as many members as a header announces before it reads
/// any of them.
#[verifier::external_body]
pub(crate) fn jsonb_from_slice(bytes: &[u8]) -> (value: Option<JsonbValue<'_>>)
    requires
        jsonb_answers(bytes@),
    ensures
        match value {
            Some(value) => jsonb_read(bytes@) == Some(value_json(value)),
            None => jsonb_read(bytes@) is None,
        },
{
    jsonb::from_slice(bytes).ok()
}

/// `jsonb::Value::to_vec`: the value as JSONB, in as many bytes as its parts take. Where there is
/// room for the sizes in it, `from_slice` reads back a value that holds the same.
#[verifier::external_body]
pub(crate) fn jsonb_to_vec(value: &JsonbValue<'_>) -> (encoded: Vec<u8>)
    ensures
        encoded@ == jsonb_bytes(value_json(*value)),
        encoded@.len() == jsonb_len(value_json(*value)),
        json_fits(value_json(*value)) ==> jsonb_answers(encoded@),
        json_fits(value_json(*value)) ==> jsonb_read(encoded@) == Some(value_json(*value)),
{
    value.to_vec()
}

/// A row as JSONB, or `None` where it is neither JSON text nor JSONB.
pub fn to_jsonb(row: &[u8]) -> (encoded: Option<Vec<u8>>)
    requires
        jsonb_answers(row@),
    ensures
        match encoded {
            Some(encoded) => jsonb_of(row@) == Some(encoded@) && reads_back(jsonb_read(row@)->0),
            None => jsonb_of(row@) is None,
        },
{
    match jsonb_from_slice(row) {
        Some(value) => Some(jsonb_to_vec(&value)),
        None => None,
    }
}

/// `jsonb` comes to an answer on all bytes that cannot be binary JSONB as far as their start
/// tells: fewer than eight, those whose first byte is of no container, and those that announce
/// more members than they have entries for. All JSON text that starts with a brace or a letter is
/// such.
pub proof fn law_text_gets_an_answer(b: Seq<u8>)
    ensures
        b.len() < 8 ==> jsonb_answers(b),
        ({
            let kind = b[0] / 32;
            let count = (b[0] % 32) * 0x100_0000 + b[1] * 0x1_0000 + b[2] * 0x100 + b[3];
            &&& b.len() >= 4 && kind != 1 && kind != 2 && kind != 4 ==> jsonb_answers(b)
            &&& b.len() >= 4 && kind == 2 && 4 + 8 * count > b.len() ==> jsonb_answers(b)
            &&& b.len() >= 4 && kind == 4 && 4 + 4 * count > b.len() ==> jsonb_answers(b)
        }),
{
}

/// `jsonb` comes to an answer on a scalar unless it is a number without bytes, a float that has
/// not nine bytes, or a container: a text, null and the truth values always have one.
pub proof fn law_scalars_get_an_answer(b: Seq<u8>)
    requires
        b.len() >= 8,
        b[0] / 32 == 1,
    ensures
        ({
            let kind = (b[4] / 16) % 8;
            let size = (b[4] % 16) * 0x100_0000 + b[5] * 0x1_0000 + b[6] * 0x100 + b[7];
            &&& kind != 2 && kind != 5 ==> jsonb_answers(b)
            &&& kind == 2 ==> (jsonb_answers(b) <==> 8 + size > b.len() || (size > 0 && (b[8] != 0x60
                || size == 9)))
            &&& kind == 5 && b.len() < 12 ==> jsonb_answers(b)
        }),
{
    let t = entry_type(b, 4);
    if t == 5 {
        assert(container_pass(b, 0) == entry_pass(b, 4, 8));
        assert(entry_pass(b, 4, 8) == container_pass(b, 8));
    }
}

/// Whether the entry at `e` is of a number whose payload at `p` has no bytes, or is a float that
/// has not nine.
pub open spec fn number_at_fault(b: Seq<u8>, e: nat, p: nat) -> bool {
    &&& (b[e as int] / 16) % 8 == 2
    &&& p + entry_size(b, e) <= b.len()
    &&& entry_size(b, e) == 0 || (b[p as int] == 0x60 && entry_size(b, e) != 9)
}

/// Whether the container at `p` is an object in which the key with number `i`, whose payload is
/// at `kp`, is not text.
pub open spec fn key_at_fault(b: Seq<u8>, p: nat, i: nat, kp: nat) -> bool {
    &&& b[p as int] / 32 == 2
    &&& i < container_count(b, p)
    &&& p + 4 + 8 * container_count(b, p) <= kp <= b.len()
    &&& (b[(p + 4 + 4 * i) as int] / 16) % 8 != 1
    &&& key_end(b, p + 4 + 4 * i, kp) is None
}

/// Whether there is a number or a key in some bytes at which the reader could panic.
pub open spec fn has_fault(b: Seq<u8>) -> bool {
    ||| exists|e: nat, p: nat| number_at_fault(b, e, p)
    ||| exists|p: nat, i: nat, kp: nat| key_at_fault(b, p, i, kp)
}

/// `jsonb` comes to an answer on all bytes but those in which some number has no bytes, some
/// float has not nine, or some key of an object is not text.
pub proof fn law_only_numbers_and_keys_leave_no_answer(b: Seq<u8>)
    ensures
        !jsonb_answers(b) ==> has_fault(b),
{
    lemma_container_fault(b, 0);
}

proof fn lemma_container_fault(b: Seq<u8>, p: nat)
    ensures
        container_pass(b, p) is Fault ==> has_fault(b),
    decreases b.len() - p, 0int, 0int,
{
    if container_pass(b, p) is Fault {
        let n = container_count(b, p);
        if container_kind(b, p) == 1 {
            lemma_entry_fault(b, p + 4, p + 8);
        } else if container_kind(b, p) == 4 {
            lemma_entries_fault(b, p + 4, n, p + 4 + 4 * n);
        } else {
            lemma_entries_fault(b, p + 4, n, p + 4 + 8 * n);
            if let Pass::Rest(q) = entries_pass(b, p + 4, n, p + 4 + 8 * n) {
                lemma_members_fault(b, p, 0, p + 4 + 8 * n, q);
            }
        }
    }
}

proof fn lemma_entry_fault(b: Seq<u8>, e: nat, p: nat)
    ensures
        entry_pass(b, e, p) is Fault ==> has_fault(b),
    decreases b.len() - p, 1int, 0int,
{
    if entry_pass(b, e, p) is Fault {
        if entry_type(b, e) == 2 {
            assert(number_at_fault(b, e, p));
        } else {
            lemma_container_fault(b, p);
        }
    }
}

proof fn lemma_entries_fault(b: Seq<u8>, e: nat, n: nat, p: nat)
    ensures
        entries_pass(b, e, n, p) is Fault ==> has_fault(b),
    decreases b.len() - p, 2int, n,
{
    if entries_pass(b, e, n, p) is Fault {
        lemma_entry_fault(b, e, p);
        if let Pass::Rest(q) = entry_pass(b, e, p) {
            lemma_entries_fault(b, e + 4, (n - 1) as nat, q);
        }
    }
}

proof fn lemma_members_fault(b: Seq<u8>, p: nat, i: nat, kp: nat, q: nat)
    requires
        container_kind(b, p) == 2,
        i <= container_count(b, p),
        p + 4 + 8 * container_count(b, p) <= kp <= b.len(),
        entries_pass(b, p + 4 + 4 * i, (container_count(b, p) - i) as nat, kp) is Rest,
    ensures
        members_pass(
            b,
            p + 4 + 4 * i,
            kp,
            p + 4 + 4 * container_count(b, p) + 4 * i,
            (container_count(b, p) - i) as nat,
            q,
        ) is Fault ==> has_fault(b),
    decreases b.len() - q, 2int, container_count(b, p) - i,
{
    let n = container_count(b, p);
    let k = p + 4 + 4 * i;
    let e = p + 4 + 4 * n + 4 * i;
    if members_pass(b, k, kp, e, (n - i) as nat, q) is Fault {
        match key_end(b, k, kp) {
            Some(kq) => {
                lemma_key_end(b, k, kp);
                lemma_entry_fault(b, e, q);
                if let Pass::Rest(next) = entry_pass(b, e, q) {
                    lemma_members_fault(b, p, i + 1, kq, next);
                }
            },
            None => {
                assert(key_at_fault(b, p, i, kp));
            },
        }
    }
}

/// A key that has been read and is text ends where its reading ended.
proof fn lemma_key_end(b: Seq<u8>, e: nat, p: nat)
    requires
        entry_pass(b, e, p) is Rest,
        key_end(b, e, p) is Some,
    ensures
        entry_pass(b, e, p) == Pass::Rest(key_end(b, e, p)->0),
    decreases b.len() - p,
{
    if entry_type(b, e) != 1 {
        assert(entry_pass(b, e, p) == container_pass(b, p));
        lemma_key_end(b, p + 4, p + 8);
    }
}

} // verus!
