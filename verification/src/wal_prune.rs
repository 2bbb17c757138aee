//! Made-up tables for trying out how the remote write-ahead log is pruned.
//!
//! Each table has a number of regions, all led by one node and logged to one topic. Every region
//! gets a last entry drawn at random. Regions whose last entry is too far ahead of the smallest
//! one are to be flushed.
use crate::hash_maps::{entries_of, extend_map, lists_map};
use crate::region::{region_id_number, Peer, Region, RegionId, RegionRoute};
use std::collections::HashMap;
use vstd::prelude::*;
use vstd::string::*;

verus! {

broadcast use vstd::std_specs::hash::group_hash_axioms;

/// What is needed to create a table.
#[derive(Debug)]
pub struct TablePlan {
    pub table_id: u32,
    pub region_ids: Vec<RegionId>,
    pub region_routes: Vec<RegionRoute>,
    pub region_wal_options: HashMap<u32, String>,
}

/// The first `region_n` regions of a table.
pub open spec fn table_regions(table_id: u32, region_n: nat) -> Seq<RegionId> {
    Seq::new(region_n, |i: int| RegionId(region_id_number(table_id, i as u32)))
}

/// Whether a route leads to a region on the only node there is.
pub open spec fn routes_to(route: RegionRoute, region: RegionId) -> bool {
    &&& route.region.id == region
    &&& route.leader_peer matches Some(peer)
    &&& peer.id == 1
    &&& peer.addr@ == Seq::<char>::empty()
}

/// Whether a plan is that of a table with `region_n` regions, each led by the only node there is
/// and logged to `topic`.
pub open spec fn plan_is(plan: TablePlan, table_id: u32, region_n: u32, topic: Seq<char>) -> bool {
    &&& plan.table_id == table_id
    &&& plan.region_ids@ == table_regions(table_id, region_n as nat)
    &&& plan.region_routes@.len() == region_n
    &&& forall|i: int|
        0 <= i < region_n ==> routes_to(#[trigger] plan.region_routes@[i], plan.region_ids@[i])
    &&& forall|number: u32| #[trigger]
        plan.region_wal_options@.contains_key(number) <==> number < region_n
    &&& forall|number: u32|
        number < region_n ==> (#[trigger] plan.region_wal_options@[number])@ == topic
}

/// Plans a table: its regions, a route to each of them, and the topic for each of them.
pub fn plan_table(table_id: u32, region_n: u32, topic: &str) -> (plan: TablePlan)
    ensures
        plan_is(plan, table_id, region_n, topic@),
{
    let mut region_ids: Vec<RegionId> = Vec::new();
    let mut region_routes: Vec<RegionRoute> = Vec::new();
    let mut region_wal_options: HashMap<u32, String> = HashMap::new();
    let mut i: u32 = 0;
    while i < region_n
        invariant
            i <= region_n,
            region_ids@ == table_regions(table_id, i as nat),
            region_routes@.len() == i,
            forall|k: int|
                0 <= k < i ==> routes_to(#[trigger] region_routes@[k], region_ids@[k]),
            forall|number: u32| #[trigger]
                region_wal_options@.contains_key(number) <==> number < i,
            forall|number: u32|
                number < i ==> (#[trigger] region_wal_options@[number])@ == topic@,
        decreases region_n - i,
    {
        let region_id = RegionId::new(table_id, i);
        let ghost before = region_ids@;
        region_ids.push(region_id);
        assert(region_ids@ =~= table_regions(table_id, (i + 1) as nat));
        let leader = Peer::empty(1);
        region_routes.push(
            RegionRoute { region: Region { id: region_id }, leader_peer: Some(leader) },
        );
        assert(forall|k: int| 0 <= k < i ==> region_ids@[k] == before[k]);
        region_wal_options.insert(i, topic.to_owned());
        i += 1;
    }
    TablePlan { table_id, region_ids, region_routes, region_wal_options }
}

/// `rand::random`: a number drawn at random. Nothing is stated of it.
#[verifier::external_body]
fn random_entry_id() -> u64 {
    rand::random::<u64>()
}

/// Draws a last entry for each region.
pub fn draw_entry_ids(region_ids: &Vec<RegionId>) -> (ids: HashMap<u64, u64>)
    ensures
        forall|k: u64| #[trigger]
            ids@.contains_key(k) <==> region_ids@.contains(RegionId(k)),
{
    let mut ids: HashMap<u64, u64> = HashMap::new();
    let mut i: usize = 0;
    while i < region_ids.len()
        invariant
            i <= region_ids@.len(),
            forall|k: u64| #[trigger]
                ids@.contains_key(k) <==> exists|j: int|
                    0 <= j < i && #[trigger] region_ids@[j] == RegionId(k),
        decreases region_ids@.len() - i,
    {
        let ghost last = ids@;
        let region_id = region_ids[i];
        ids.insert(region_id.as_u64(), random_entry_id());
        proof {
            assert forall|k: u64| #[trigger] ids@.contains_key(k) <==> exists|j: int|
                0 <= j < i + 1 && #[trigger] region_ids@[j] == RegionId(k) by {
                if k == region_id.0 {
                    assert(region_ids@[i as int] == RegionId(k));
                } else {
                    assert(ids@.contains_key(k) == last.contains_key(k));
                }
            }
        }
        i += 1;
    }
    assert forall|k: u64| #[trigger]
        ids@.contains_key(k) <==> region_ids@.contains(RegionId(k)) by {
        if region_ids@.contains(RegionId(k)) {
            let j = choose|j: int| 0 <= j < region_ids@.len() && region_ids@[j] == RegionId(k);
            assert(region_ids@[j] == RegionId(k));
        }
    }
    ids
}

/// Whether a number stands for a region of one of the first `table_n` tables.
pub open spec fn is_region_of_tables(number: u64, table_n: u32, region_n: u32) -> bool {
    exists|table_id: u32|
        table_id < table_n && #[trigger] table_regions(table_id, region_n as nat).contains(
            RegionId(number),
        )
}

/// The tables as they are made one after the other: how many are to be made and have been, the
/// last entries of the regions of those that have been, and the smallest entry seen. The smallest
/// entry starts at zero.
#[derive(Debug)]
pub struct WalPruneMetadata {
    pub table_n: u32,
    pub region_n: u32,
    pub done: u32,
    pub min_last_entry_id: u64,
    pub region_entry_ids: HashMap<u64, u64>,
}

impl WalPruneMetadata {
    /// Exactly the regions of the tables that have been made have a last entry, and the smallest
    /// entry seen, zero, is above none of them.
    pub open spec fn wf(&self) -> bool {
        &&& self.done <= self.table_n
        &&& self.min_last_entry_id == 0
        &&& forall|k: u64| #[trigger]
            self.region_entry_ids@.contains_key(k) <==> is_region_of_tables(
                k,
                self.done,
                self.region_n,
            )
    }

    /// `table_n` tables with `region_n` regions each, none of which has been made.
    pub fn new(region_n: u32, table_n: u32) -> (metadata: WalPruneMetadata)
        ensures
            metadata.wf(),
            metadata.table_n == table_n,
            metadata.region_n == region_n,
            metadata.done == 0,
            metadata.region_entry_ids@ == Map::<u64, u64>::empty(),
    {
        WalPruneMetadata {
            table_n,
            region_n,
            done: 0,
            min_last_entry_id: 0,
            region_entry_ids: HashMap::new(),
        }
    }

    /// The table to be made next, with the topic that its regions are logged to; `None` where
    /// all have been made.
    pub fn next_table(&self, topic: &str) -> (plan: Option<TablePlan>)
        requires
            self.wf(),
        ensures
            match plan {
                Some(plan) => self.done < self.table_n && plan_is(
                    plan,
                    self.done,
                    self.region_n,
                    topic@,
                ),
                None => self.done == self.table_n,
            },
    {
        if self.done < self.table_n {
            Some(plan_table(self.done, self.region_n, topic))
        } else {
            None
        }
    }

    /// Adds the last entries of the regions of the table that has been made.
    pub fn record(&mut self, ids: &HashMap<u64, u64>)
        requires
            old(self).wf(),
            old(self).done < old(self).table_n,
            forall|k: u64| #[trigger]
                ids@.contains_key(k) <==> table_regions(
                    old(self).done,
                    old(self).region_n as nat,
                ).contains(RegionId(k)),
        ensures
            final(self).wf(),
            final(self).table_n == old(self).table_n,
            final(self).region_n == old(self).region_n,
            final(self).done == old(self).done + 1,
            final(self).region_entry_ids@ == old(self).region_entry_ids@.union_prefer_right(ids@),
    {
        let ghost before = *self;
        let entries = entries_of(ids);
        let mut least: u64 = self.min_last_entry_id;
        let mut i: usize = 0;
        while i < entries.len()
            invariant
                i <= entries@.len(),
                least == 0,
            decreases entries@.len() - i,
        {
            let id = *entries[i].1;
            if id < least {
                least = id;
            }
            i += 1;
        }
        self.min_last_entry_id = least;
        extend_map(&mut self.region_entry_ids, ids);
        self.done = self.done + 1;
        proof {
            let merged = before.region_entry_ids@.union_prefer_right(ids@);
            assert forall|k: u64| #[trigger] merged.contains_key(k) <==> is_region_of_tables(
                k,
                self.done,
                self.region_n,
            ) by {
                assert(merged.contains_key(k) <==> before.region_entry_ids@.contains_key(k)
                    || ids@.contains_key(k));
                if is_region_of_tables(k, self.done, self.region_n) {
                    let table_id = choose|table_id: u32|
                        table_id < self.done && #[trigger] table_regions(
                            table_id,
                            self.region_n as nat,
                        ).contains(RegionId(k));
                    if table_id < before.done {
                        assert(is_region_of_tables(k, before.done, before.region_n));
                    }
                }
                if ids@.contains_key(k) {
                    assert(table_regions(before.done, self.region_n as nat).contains(RegionId(k)));
                }
            }
        }
    }

    /// The smallest entry seen, where it is not zero, which it always is, and the regions whose
    /// last entry is more than `threshold` ahead of it, in no particular order.
    pub fn finish(&self, threshold: u64) -> (res: (Option<u64>, Vec<RegionId>))
        requires
            self.wf(),
        ensures
            ({
                let (least, regions) = res;
                &&& least is None
                &&& regions@.no_duplicates()
                &&& forall|region: RegionId| #[trigger]
                    regions@.contains(region) <==> self.to_flush(region, threshold)
            }),
    {
        let entries = entries_of(&self.region_entry_ids);
        let mut regions: Vec<RegionId> = Vec::new();
        let mut i: usize = 0;
        while i < entries.len()
            invariant
                i <= entries@.len(),
                self.wf(),
                lists_map(entries@, self.region_entry_ids@),
                regions@.no_duplicates(),
                forall|region: RegionId| #[trigger]
                    regions@.contains(region) <==> self.to_flush(region, threshold) && exists|
                        j: int,
                    |
                        0 <= j < i && (#[trigger] entries@[j]).0 == region.0,
            decreases entries@.len() - i,
        {
            let entry = entries[i];
            let ghost last = regions@;
            assert(entries@[i as int] == entry);
            assert(self.region_entry_ids@.contains_key(entry.0));
            if *entry.1 - self.min_last_entry_id > threshold {
                let region = RegionId::from_u64(entry.0);
                assert(!last.contains(region));
                regions.push(region);
                assert(regions@[last.len() as int] == region);
            }
            proof {
                assert forall|region: RegionId| #[trigger]
                    regions@.contains(region) <==> self.to_flush(region, threshold) && exists|
                        j: int,
                    |
                        0 <= j < i + 1 && (#[trigger] entries@[j]).0 == region.0 by {
                    if region.0 == entry.0 {
                        assert(entries@[i as int].0 == region.0);
                        assert(!last.contains(region));
                    } else {
                        if last.contains(region) {
                            let n = choose|n: int| 0 <= n < last.len() && last[n] == region;
                            assert(regions@[n] == region);
                        }
                        if regions@.contains(region) {
                            let n = choose|n: int|
                                0 <= n < regions@.len() && regions@[n] == region;
                            assert(last[n] == region);
                        }
                        assert(regions@.contains(region) == last.contains(region));
                    }
                }
            }
            i += 1;
        }
        proof {
            assert forall|region: RegionId| #[trigger]
                regions@.contains(region) <==> self.to_flush(region, threshold) by {
                if self.to_flush(region, threshold) {
                    let j = choose|j: int|
                        0 <= j < entries@.len() && (#[trigger] entries@[j]).0 == region.0;
                    assert(entries@[j].0 == region.0);
                }
            }
        }
        let least = if self.min_last_entry_id == 0 {
            None
        } else {
            Some(self.min_last_entry_id)
        };
        (least, regions)
    }

    /// Whether a region has a last entry more than `threshold` ahead of the smallest.
    pub open spec fn to_flush(&self, region: RegionId, threshold: u64) -> bool {
        &&& self.region_entry_ids@.contains_key(region.0)
        &&& self.region_entry_ids@[region.0] - self.min_last_entry_id > threshold
    }
}

/// A planned table has the regions with the numbers from zero up, a route to each of them in the
/// same order, led by the only node there is, and the topic for each of these numbers and for no
/// others.
pub proof fn law_plan_covers_the_regions(
    plan: TablePlan,
    table_id: u32,
    region_n: u32,
    topic: Seq<char>,
    i: u32,
)
    requires
        plan_is(plan, table_id, region_n, topic),
    ensures
        plan.table_id == table_id,
        plan.region_ids@.len() == region_n,
        plan.region_routes@.len() == region_n,
        i < region_n ==> {
            &&& plan.region_ids@[i as int].0 == table_id * 0x1_0000_0000 + i
            &&& plan.region_routes@[i as int].region.id.0 == table_id * 0x1_0000_0000 + i
            &&& plan.region_routes@[i as int].leader_peer matches Some(peer)
            &&& peer.id == 1
            &&& peer.addr@.len() == 0
        },
        plan.region_wal_options@.contains_key(i) <==> i < region_n,
        i < region_n ==> plan.region_wal_options@[i]@ == topic,
{
    if i < region_n {
        assert(routes_to(plan.region_routes@[i as int], plan.region_ids@[i as int]));
    }
}

/// A number stands for a region of one of the first tables exactly where its upper half is the
/// number of such a table and its lower half that of a region.
pub proof fn law_regions_of_tables(number: u64, table_n: u32, region_n: u32)
    ensures
        is_region_of_tables(number, table_n, region_n) <==> number / 0x1_0000_0000 < table_n
            && number % 0x1_0000_0000 < region_n,
{
    if is_region_of_tables(number, table_n, region_n) {
        let table_id = choose|table_id: u32|
            table_id < table_n && #[trigger] table_regions(table_id, region_n as nat).contains(
                RegionId(number),
            );
        let regions = table_regions(table_id, region_n as nat);
        let i = choose|i: int| 0 <= i < regions.len() && regions[i] == RegionId(number);
        assert(number == table_id * 0x1_0000_0000 + i);
    }
    if number / 0x1_0000_0000 < table_n && number % 0x1_0000_0000 < region_n {
        let table_id = (number / 0x1_0000_0000) as u32;
        let i = (number % 0x1_0000_0000) as int;
        let regions = table_regions(table_id, region_n as nat);
        assert(regions[i] == RegionId(number));
        assert(regions.contains(RegionId(number)));
    }
}

/// Exactly the regions of the tables that have been made have a last entry, and exactly those of
/// them whose last entry is above the threshold are to be flushed.
pub proof fn law_regions_above_the_threshold_are_flushed(
    metadata: WalPruneMetadata,
    region: RegionId,
    threshold: u64,
)
    requires
        metadata.wf(),
    ensures
        metadata.region_entry_ids@.contains_key(region.0) <==> region.0 / 0x1_0000_0000
            < metadata.done && region.0 % 0x1_0000_0000 < metadata.region_n,
        metadata.to_flush(region, threshold) <==> metadata.region_entry_ids@.contains_key(region.0)
            && metadata.region_entry_ids@[region.0] > threshold,
{
    law_regions_of_tables(region.0, metadata.done, metadata.region_n);
}

} // verus!
