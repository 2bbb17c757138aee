//! The last entry of each region in the remote write-ahead log.
//!
//! Datanodes report the last entry of their regions with every heartbeat. The reports are merged
//! into one map from regions to entries, which is kept as JSON under a single key.
use crate::hash_maps::extend_map;
use crate::json::{json_number_map, number_map_from_json, number_map_to_json};
use crate::string_map::StringMap;
use crate::text::{
    decimal, digit_char, law_decimal_is_the_number, text_from_utf8_lossy, utf8_lossy,
};
use std::collections::HashMap;
use vstd::prelude::*;
use vstd::slice::slice_to_vec;
use vstd::string::*;
use vstd::utf8::encode_utf8;

verus! {

broadcast use vstd::std_specs::hash::group_hash_axioms;

/// The key under which the map from regions to their last entries is kept.
pub const REMOTE_WAL_LAST_ENTRY_ID_KEY: &'static str = "remote_wal_last_entry_id";

/// An error of the map from regions to their last entries.
#[derive(Debug, PartialEq, Eq)]
pub enum Error {
    /// What is kept is not such a map: `input` is what it is, as text.
    DeserializeFromJson { input: String },
    /// The map cannot be written.
    SerializeToJson,
}

/// What a node is.
#[derive(Debug, Clone, Copy, PartialEq, Eq, Structural)]
pub enum Role {
    Datanode,
    Frontend,
    Flownode,
}

/// What a datanode reports of a region.
#[derive(Debug)]
pub struct RegionStat {
    pub region_id: u64,
    pub extensions: StringMap<Vec<u8>>,
}

/// A value to be stored under a key.
#[derive(Debug, PartialEq, Eq)]
pub struct PutRequest {
    pub key: Vec<u8>,
    pub value: Vec<u8>,
    pub prev_kv: bool,
}

/// Whether a byte is an ASCII digit.
pub open spec fn is_digit(b: u8) -> bool {
    0x30 <= b <= 0x39
}

/// The number that ASCII digits are.
pub open spec fn digits_value(digits: Seq<u8>) -> nat
    decreases digits.len(),
{
    if digits.len() == 0 {
        0
    } else {
        digits_value(digits.drop_last()) * 10 + (digits.last() - 0x30) as nat
    }
}

/// A report without the plus sign that it may start with.
pub open spec fn unsigned(report: Seq<u8>) -> Seq<u8> {
    if report.len() > 0 && report[0] == 0x2b {
        report.drop_first()
    } else {
        report
    }
}

/// Whether bytes are ASCII digits, at least one.
pub open spec fn is_numeral(digits: Seq<u8>) -> bool {
    digits.len() > 0 && forall|i: int| 0 <= i < digits.len() ==> is_digit(#[trigger] digits[i])
}

/// The entry that a report names: a decimal numeral, perhaps with a plus sign before it, of a
/// number of 64 bits. `None` where the report is none.
pub open spec fn entry_id_of(report: Seq<u8>) -> Option<u64> {
    let digits = unsigned(report);
    if is_numeral(digits) && digits_value(digits) <= u64::MAX {
        Some(digits_value(digits) as u64)
    } else {
        None
    }
}

/// Reads the entry that a report names.
pub fn read_entry_id(report: &[u8]) -> (id: Option<u64>)
    ensures
        id == entry_id_of(report@),
{
    let start: usize = if report.len() > 0 && report[0] == 0x2b {
        1
    } else {
        0
    };
    let ghost digits = report@.skip(start as int);
    assert(digits =~= unsigned(report@));
    if start == report.len() {
        return None;
    }
    let mut id: u64 = 0;
    let mut overflow: bool = false;
    let mut i: usize = start;
    assert(digits.take(0) =~= Seq::empty());
    while i < report.len()
        invariant
            start <= i <= report@.len(),
            digits == report@.skip(start as int),
            digits == unsigned(report@),
            forall|k: int| 0 <= k < i - start ==> is_digit(#[trigger] digits[k]),
            !overflow ==> id == digits_value(digits.take(i - start)),
            overflow ==> digits_value(digits.take(i - start)) > u64::MAX,
        decreases report@.len() - i,
    {
        let b = report[i];
        assert(b == digits[i - start]);
        if b < 0x30 || b > 0x39 {
            assert(!is_digit(digits[i - start]));
            return None;
        }
        let d: u64 = (b - 0x30) as u64;
        assert(digits.take(i + 1 - start).drop_last() =~= digits.take(i - start));
        if !overflow && id <= (0xffff_ffff_ffff_ffff - d) / 10 {
            id = id * 10 + d;
        } else {
            overflow = true;
        }
        i += 1;
    }
    assert(digits.take(i - start) =~= digits);
    if overflow {
        None
    } else {
        Some(id)
    }
}

/// The entries that reports name: of two reports on a region the later counts, and a report
/// without an entry does not count.
pub open spec fn reported_ids(stats: Seq<RegionStat>, key: Seq<char>) -> Map<u64, u64>
    decreases stats.len(),
{
    if stats.len() == 0 {
        Map::empty()
    } else {
        let earlier = reported_ids(stats.drop_last(), key);
        let stat = stats.last();
        if stat.extensions@.contains_key(key) {
            earlier.insert(stat.region_id, entry_id_of(stat.extensions@[key]@)->0)
        } else {
            earlier
        }
    }
}

/// Whether every report that should name an entry does.
pub open spec fn reports_readable(stats: Seq<RegionStat>, key: Seq<char>) -> bool {
    forall|i: int|
        0 <= i < stats.len() && (#[trigger] stats[i]).extensions@.contains_key(key) ==> entry_id_of(
            stats[i].extensions@[key]@,
        ) is Some
}

/// Handler for pruning remote WAL entries. Only activated when using remote WAL.
pub struct RemoteWalEntryIdHandler;

impl RemoteWalEntryIdHandler {
    /// Whether heartbeats of a node concern the handler.
    pub fn is_acceptable(&self, role: Role) -> (yes: bool)
        ensures
            yes == (role == Role::Datanode),
    {
        role == Role::Datanode
    }

    /// Tells whether every report that should name an entry, under `key`, does.
    pub fn readable(&self, region_stats: &Vec<RegionStat>, key: &str) -> (yes: bool)
        ensures
            yes == reports_readable(region_stats@, key@),
    {
        let mut i: usize = 0;
        while i < region_stats.len()
            invariant
                i <= region_stats@.len(),
                reports_readable(region_stats@.take(i as int), key@),
            decreases region_stats@.len() - i,
        {
            if let Some(report) = region_stats[i].extensions.get(key) {
                if read_entry_id(report.as_slice()).is_none() {
                    assert(region_stats@[i as int].extensions@.contains_key(key@));
                    return false;
                }
            }
            assert forall|k: int|
                0 <= k < i + 1 && (#[trigger] region_stats@.take(
                    i + 1,
                )[k]).extensions@.contains_key(key@) implies entry_id_of(
                region_stats@.take(i + 1)[k].extensions@[key@]@,
            ) is Some by {
                if k < i {
                    assert(region_stats@.take(i as int)[k] == region_stats@[k]);
                }
            }
            i += 1;
        }
        assert(region_stats@.take(i as int) =~= region_stats@);
        true
    }

    /// The entries that a heartbeat makes known, from the reports under `key`. A heartbeat
    /// whose statistics are missing makes none known and changes nothing.
    pub fn handle(&self, has_stat: bool, region_stats: &Vec<RegionStat>, key: &str) -> (ids: Option<
        HashMap<u64, u64>,
    >)
        requires
            has_stat ==> reports_readable(region_stats@, key@),
        ensures
            match ids {
                None => !has_stat,
                Some(ids) => has_stat && ids@ == reported_ids(region_stats@, key@),
            },
    {
        if !has_stat {
            return None;
        }
        let mut ids: HashMap<u64, u64> = HashMap::new();
        let mut i: usize = 0;
        assert(region_stats@.take(0) =~= Seq::empty());
        while i < region_stats.len()
            invariant
                i <= region_stats@.len(),
                reports_readable(region_stats@, key@),
                ids@ == reported_ids(region_stats@.take(i as int), key@),
            decreases region_stats@.len() - i,
        {
            assert(region_stats@.take(i + 1).drop_last() =~= region_stats@.take(i as int));
            assert(region_stats@.take(i + 1).last() == region_stats@[i as int]);
            if let Some(report) = region_stats[i].extensions.get(key) {
                assert(region_stats@[i as int].extensions@.contains_key(key@));
                if let Some(id) = read_entry_id(report.as_slice()) {
                    ids.insert(region_stats[i].region_id, id);
                }
            }
            i += 1;
        }
        assert(region_stats@.take(i as int) =~= region_stats@);
        Some(ids)
    }
}

/// The map that is kept: an empty one where nothing is, and `None` where what is kept is no such
/// map.
pub open spec fn kept_ids(stored: Option<Seq<u8>>) -> Option<Map<u64, u64>> {
    match stored {
        Some(value) => json_number_map(value),
        None => Some(Map::empty()),
    }
}

/// What is to be stored once `ids` have become known and `stored` is kept: the kept map with the
/// entries of `ids`, which replace those that it has.
pub open spec fn update_outcome(
    stored: Option<Seq<u8>>,
    ids: Map<u64, u64>,
    res: Result<PutRequest, Error>,
) -> bool {
    match res {
        Ok(put) => {
            &&& kept_ids(stored) is Some
            &&& put.key@ == encode_utf8(REMOTE_WAL_LAST_ENTRY_ID_KEY@)
            &&& json_number_map(put.value@) == Some(kept_ids(stored)->0.union_prefer_right(ids))
            &&& !put.prev_kv
        },
        Err(err) => {
            &&& kept_ids(stored) is None
            &&& err matches Error::DeserializeFromJson { input }
            &&& input@ == utf8_lossy(stored->0)
        },
    }
}

/// The key under which the map is kept, as bytes.
pub fn entry_ids_key() -> (key: Vec<u8>)
    ensures
        key@ == encode_utf8(REMOTE_WAL_LAST_ENTRY_ID_KEY@),
{
    slice_to_vec(REMOTE_WAL_LAST_ENTRY_ID_KEY.as_bytes())
}

/// Merges entries that have become known into the map that is kept, and gives what is to be
/// stored.
pub fn merge_region_last_entry_id(stored: Option<&[u8]>, region_entry_ids: &HashMap<u64, u64>) -> (res:
    Result<PutRequest, Error>)
    ensures
        update_outcome(
            match stored {
                Some(value) => Some(value@),
                None => None,
            },
            region_entry_ids@,
            res,
        ),
{
    let mut kept: HashMap<u64, u64> = match stored {
        Some(value) => match number_map_from_json(value) {
            Ok(kept) => kept,
            Err(_) => {
                return Err(Error::DeserializeFromJson { input: text_from_utf8_lossy(value) });
            },
        },
        None => HashMap::new(),
    };
    extend_map(&mut kept, region_entry_ids);
    match number_map_to_json(&kept) {
        Ok(value) => Ok(PutRequest { key: entry_ids_key(), value, prev_kv: false }),
        Err(_) => Err(Error::SerializeToJson),
    }
}

/// What an update has stored is read back by the next: after two updates every region has the
/// entry of the later update that names it, and a region that neither names has the entry that
/// was kept before.
pub proof fn law_updates_accumulate(
    stored: Option<Seq<u8>>,
    first: Map<u64, u64>,
    put: PutRequest,
    second: Map<u64, u64>,
    res: Result<PutRequest, Error>,
)
    requires
        update_outcome(stored, first, Ok(put)),
        update_outcome(Some(put.value@), second, res),
    ensures
        res is Ok,
        json_number_map(res->Ok_0.value@) == Some(
            kept_ids(stored)->0.union_prefer_right(first.union_prefer_right(second)),
        ),
{
    let kept = kept_ids(stored)->0;
    assert(kept.union_prefer_right(first).union_prefer_right(second) =~= kept.union_prefer_right(
        first.union_prefer_right(second),
    ));
}

/// An update that is made twice keeps what the first time has kept.
pub proof fn law_update_is_idempotent(
    stored: Option<Seq<u8>>,
    ids: Map<u64, u64>,
    put: PutRequest,
    res: Result<PutRequest, Error>,
)
    requires
        update_outcome(stored, ids, Ok(put)),
        update_outcome(Some(put.value@), ids, res),
    ensures
        res is Ok,
        json_number_map(res->Ok_0.value@) == json_number_map(put.value@),
{
    let kept = kept_ids(stored)->0;
    assert(kept.union_prefer_right(ids).union_prefer_right(ids) =~= kept.union_prefer_right(ids));
}

/// The entries that reports make known are those of the regions that some report with an entry
/// names, and of no others; and the entry of a region is the one in the last such report on it.
pub proof fn law_reported_regions_have_their_last_report(
    stats: Seq<RegionStat>,
    key: Seq<char>,
    region: u64,
)
    ensures
        reported_ids(stats, key).contains_key(region) <==> exists|i: int|
            0 <= i < stats.len() && (#[trigger] stats[i]).region_id == region
                && stats[i].extensions@.contains_key(key),
        forall|i: int|
            {
                &&& 0 <= i < stats.len()
                &&& (#[trigger] stats[i]).region_id == region
                &&& stats[i].extensions@.contains_key(key)
                &&& forall|j: int|
                    i < j < stats.len() && (#[trigger] stats[j]).region_id == region
                        ==> !stats[j].extensions@.contains_key(key)
            } ==> reported_ids(stats, key)[region] == entry_id_of(stats[i].extensions@[key]@)->0,
    decreases stats.len(),
{
    if stats.len() > 0 {
        let front = stats.drop_last();
        let n = stats.len() - 1;
        let earlier = reported_ids(front, key);
        law_reported_regions_have_their_last_report(front, key, region);
        if earlier.contains_key(region) {
            let i = choose|i: int|
                0 <= i < front.len() && (#[trigger] front[i]).region_id == region
                    && front[i].extensions@.contains_key(key);
            assert(stats[i] == front[i]);
        }
        if exists|i: int|
            0 <= i < stats.len() && (#[trigger] stats[i]).region_id == region
                && stats[i].extensions@.contains_key(key) {
            let i = choose|i: int|
                0 <= i < stats.len() && (#[trigger] stats[i]).region_id == region
                    && stats[i].extensions@.contains_key(key);
            if i < n {
                assert(front[i] == stats[i]);
            }
        }
        assert forall|i: int|
            {
                &&& 0 <= i < stats.len()
                &&& (#[trigger] stats[i]).region_id == region
                &&& stats[i].extensions@.contains_key(key)
                &&& forall|j: int|
                    i < j < stats.len() && (#[trigger] stats[j]).region_id == region
                        ==> !stats[j].extensions@.contains_key(key)
            } implies reported_ids(stats, key)[region] == entry_id_of(
            stats[i].extensions@[key]@,
        )->0 by {
            if i < n {
                assert(front[i] == stats[i]);
                assert forall|j: int|
                    i < j < front.len() && (#[trigger] front[j]).region_id
                        == region implies !front[j].extensions@.contains_key(key) by {
                    assert(front[j] == stats[j]);
                }
                assert(stats[n].region_id == region ==> !stats[n].extensions@.contains_key(key));
            }
        }
    }
}

/// A number as ASCII digits.
pub open spec fn numeral_bytes(n: nat) -> Seq<u8> {
    Seq::new(decimal(n).len(), |i: int| decimal(n)[i] as u8)
}

/// A report that is the numeral of a number of 64 bits, with leading zeros or without, with a
/// plus sign before it or without, names that number. The numeral of a larger number names none.
pub proof fn law_numerals_name_their_number(n: nat, zeros: nat)
    ensures
        ({
            let digits = Seq::new(zeros, |i: int| 0x30u8) + numeral_bytes(n);
            let signed = seq![0x2bu8] + digits;
            &&& n <= u64::MAX ==> entry_id_of(digits) == Some(n as u64)
            &&& n <= u64::MAX ==> entry_id_of(signed) == Some(n as u64)
            &&& n > u64::MAX ==> entry_id_of(digits) is None
            &&& n > u64::MAX ==> entry_id_of(signed) is None
        }),
{
    let digits = Seq::new(zeros, |i: int| 0x30u8) + numeral_bytes(n);
    let signed = seq![0x2bu8] + digits;
    law_decimal_is_the_number(n);
    lemma_numeral_value(n);
    lemma_leading_zeros(zeros, numeral_bytes(n));
    assert forall|i: int| 0 <= i < digits.len() implies is_digit(#[trigger] digits[i]) by {
        if i >= zeros {
            assert(digits[i] == numeral_bytes(n)[i - zeros]);
            assert('0' <= decimal(n)[i - zeros] <= '9');
        }
    }
    assert(is_digit(digits[0]));
    assert(unsigned(digits) == digits);
    assert(unsigned(signed) =~= digits);
}

/// Leading zeros add nothing to a number.
proof fn lemma_leading_zeros(zeros: nat, digits: Seq<u8>)
    ensures
        digits_value(Seq::new(zeros, |i: int| 0x30u8) + digits) == digits_value(digits),
    decreases zeros + digits.len(),
{
    let lead = Seq::new(zeros, |i: int| 0x30u8);
    let whole = lead + digits;
    if digits.len() > 0 {
        lemma_leading_zeros(zeros, digits.drop_last());
        assert(whole.drop_last() =~= lead + digits.drop_last());
    } else if zeros > 0 {
        let fewer = Seq::new((zeros - 1) as nat, |i: int| 0x30u8);
        lemma_leading_zeros((zeros - 1) as nat, digits);
        assert(whole.drop_last() =~= fewer + digits);
        assert(digits_value(whole) == 0);
    } else {
        assert(whole =~= digits);
    }
}

/// The numeral of a number is worth that number.
proof fn lemma_numeral_value(n: nat)
    ensures
        digits_value(numeral_bytes(n)) == n,
    decreases n,
{
    let bytes = numeral_bytes(n);
    if n < 10 {
        assert(decimal(n).len() == 1);
        assert(decimal(n)[0] == digit_char(n));
        assert(bytes.drop_last() =~= Seq::empty());
        assert(digits_value(bytes.drop_last()) == 0);
        assert(bytes.last() == 0x30 + n);
    } else {
        lemma_numeral_value(n / 10);
        assert(bytes.drop_last() =~= numeral_bytes(n / 10));
        assert(decimal(n).last() == digit_char(n % 10));
        assert(bytes.last() == 0x30 + n % 10);
    }
}

/// A report names no entry where it is empty, where it is a plus sign alone, or where it has a
/// byte that is no ASCII digit, but for a plus sign at its start.
pub proof fn law_other_reports_name_nothing(report: Seq<u8>, i: int)
    ensures
        report.len() == 0 ==> entry_id_of(report) is None,
        report == seq![0x2bu8] ==> entry_id_of(report) is None,
        0 <= i < report.len() && !(0x30 <= report[i] <= 0x39) && !(i == 0 && report[i] == 0x2b)
            ==> entry_id_of(report) is None,
{
    if 0 <= i < report.len() && !(0x30 <= report[i] <= 0x39) && !(i == 0 && report[i] == 0x2b) {
        let digits = unsigned(report);
        if report[0] == 0x2b {
            assert(digits[i - 1] == report[i]);
            assert(!is_digit(digits[i - 1]));
        } else {
            assert(!is_digit(digits[i]));
        }
    }
}

/// Reports can be read exactly where each that has an entry names one.
pub proof fn law_readable_reports_name_entries(stats: Seq<RegionStat>, key: Seq<char>)
    ensures
        reports_readable(stats, key) <==> forall|i: int|
            0 <= i < stats.len() && (#[trigger] stats[i]).extensions@.contains_key(key)
                ==> entry_id_of(stats[i].extensions@[key]@) is Some,
{
}

/// An update keeps what was kept and adds what has become known: a region that has become known
/// has the entry that became known, and any other has what was kept for it, or nothing where
/// nothing was. It is stored under the one key, and the former value is not asked for.
pub proof fn law_update_adds_to_what_is_kept(
    stored: Option<Seq<u8>>,
    ids: Map<u64, u64>,
    put: PutRequest,
    region: u64,
)
    requires
        update_outcome(stored, ids, Ok(put)),
    ensures
        put.key@ == encode_utf8("remote_wal_last_entry_id"@),
        !put.prev_kv,
        stored matches Some(value) ==> json_number_map(value) is Some,
        ({
            &&& json_number_map(put.value@) matches Some(now)
            &&& ids.contains_key(region) ==> now.contains_key(region) && now[region] == ids[region]
            &&& !ids.contains_key(region) && stored is None ==> !now.contains_key(region)
            &&& !ids.contains_key(region) && stored is Some ==> {
                let kept = json_number_map(stored->0)->0;
                &&& now.contains_key(region) <==> kept.contains_key(region)
                &&& now.contains_key(region) ==> now[region] == kept[region]
            }
        }),
{
    let kept = kept_ids(stored)->0;
    let now = json_number_map(put.value@)->0;
    assert(now.contains_key(region) <==> kept.contains_key(region) || ids.contains_key(region));
}

/// An update fails exactly where what is kept is no map of numbers, and the error shows what is
/// kept.
pub proof fn law_update_fails_on_what_is_no_map(
    stored: Option<Seq<u8>>,
    ids: Map<u64, u64>,
    res: Result<PutRequest, Error>,
)
    requires
        update_outcome(stored, ids, res),
    ensures
        res is Err <==> (stored matches Some(value) && json_number_map(value) is None),
        res matches Err(err) ==> {
            &&& err matches Error::DeserializeFromJson { input }
            &&& input@ == utf8_lossy(stored->0)
        },
{
}

} // verus!
