//! Regions, the nodes that serve them, and the routes from the one to the other.
use vstd::prelude::*;

verus! {

/// The identity of a region: the table that it belongs to and its number in that table.
#[derive(Debug, Clone, Copy, PartialEq, Eq, Structural, Hash)]
pub struct RegionId(pub u64);

/// The number that stands for a region of a table: the table in the upper half, the number of
/// the region in the lower.
pub open spec fn region_id_number(table_id: u32, region_number: u32) -> u64 {
    (table_id * 0x1_0000_0000 + region_number) as u64
}

impl RegionId {
    /// The identity of a region of a table.
    pub fn new(table_id: u32, region_number: u32) -> (id: RegionId)
        ensures
            id.0 == region_id_number(table_id, region_number),
    {
        RegionId(table_id as u64 * 0x1_0000_0000 + region_number as u64)
    }

    /// The number that stands for the region.
    pub fn as_u64(&self) -> (number: u64)
        ensures
            number == self.0,
    {
        self.0
    }

    /// The region that a number stands for.
    pub fn from_u64(number: u64) -> (id: RegionId)
        ensures
            id.0 == number,
    {
        RegionId(number)
    }
}

/// Regions of different tables, or with different numbers, have different identities.
pub proof fn law_region_ids_differ(
    table_id: u32,
    region_number: u32,
    other_table_id: u32,
    other_region_number: u32,
)
    ensures
        region_id_number(table_id, region_number) == region_id_number(
            other_table_id,
            other_region_number,
        ) <==> table_id == other_table_id && region_number == other_region_number,
{
}

/// A node: its number and where it is reached.
#[derive(Debug, PartialEq, Eq)]
pub struct Peer {
    pub id: u64,
    pub addr: String,
}

impl Peer {
    /// A node that is known by its number only.
    pub fn empty(id: u64) -> (peer: Peer)
        ensures
            peer.id == id,
            peer.addr@ == Seq::<char>::empty(),
    {
        Peer { id, addr: String::new() }
    }
}

/// A region as a route names it.
#[derive(Debug, PartialEq, Eq)]
pub struct Region {
    pub id: RegionId,
}

/// Which node leads a region, where one does.
#[derive(Debug, PartialEq, Eq)]
pub struct RegionRoute {
    pub region: Region,
    pub leader_peer: Option<Peer>,
}

/// A region under watch for failure, with the node that leads it.
pub type DetectingRegion = (u64, RegionId);

/// The regions of routes that have a leader, each with its leader, in the order of the routes.
pub open spec fn detecting_regions(routes: Seq<RegionRoute>) -> Seq<(u64, RegionId)>
    decreases routes.len(),
{
    if routes.len() == 0 {
        Seq::empty()
    } else {
        let front = detecting_regions(routes.drop_last());
        match routes.last().leader_peer {
            Some(peer) => front.push((peer.id, routes.last().region.id)),
            None => front,
        }
    }
}

/// Converts a list of [`RegionRoute`] to a list of [`DetectingRegion`].
pub fn convert_region_routes_to_detecting_regions(region_routes: &[RegionRoute]) -> (regions: Vec<
    DetectingRegion,
>)
    ensures
        regions@ == detecting_regions(region_routes@),
{
    let mut regions: Vec<DetectingRegion> = Vec::new();
    let mut i: usize = 0;
    assert(region_routes@.take(0) =~= Seq::empty());
    while i < region_routes.len()
        invariant
            i <= region_routes@.len(),
            regions@ == detecting_regions(region_routes@.take(i as int)),
        decreases region_routes@.len() - i,
    {
        assert(region_routes@.take(i + 1).drop_last() =~= region_routes@.take(i as int));
        if let Some(peer) = &region_routes[i].leader_peer {
            regions.push((peer.id, region_routes[i].region.id));
        }
        i += 1;
    }
    assert(region_routes@.take(i as int) =~= region_routes@);
    regions
}

/// A region is under watch exactly where some route gives it that leader.
pub proof fn law_detecting_regions_are_the_led_ones(
    routes: Seq<RegionRoute>,
    detecting: (u64, RegionId),
)
    ensures
        detecting_regions(routes).contains(detecting) <==> exists|i: int|
            0 <= i < routes.len() && (#[trigger] routes[i]).leader_peer is Some
                && routes[i].leader_peer->0.id == detecting.0 && routes[i].region.id == detecting.1,
    decreases routes.len(),
{
    if routes.len() > 0 {
        let front = routes.drop_last();
        let n = routes.len() - 1;
        law_detecting_regions_are_the_led_ones(front, detecting);
        let before = detecting_regions(front);
        let after = detecting_regions(routes);
        if before.contains(detecting) {
            let k = choose|k: int| 0 <= k < before.len() && before[k] == detecting;
            assert(after[k] == detecting);
            let i = choose|i: int|
                0 <= i < front.len() && (#[trigger] front[i]).leader_peer is Some
                    && front[i].leader_peer->0.id == detecting.0 && front[i].region.id
                    == detecting.1;
            assert(routes[i] == front[i]);
        }
        if routes[n].leader_peer is Some {
            assert(after[before.len() as int] == (
                routes[n].leader_peer->0.id,
                routes[n].region.id,
            ));
        }
        if after.contains(detecting) && !before.contains(detecting) {
            let k = choose|k: int| 0 <= k < after.len() && after[k] == detecting;
            if k < before.len() {
                assert(before[k] == detecting);
            }
            assert(routes[n].leader_peer is Some);
        }
        if exists|i: int|
            0 <= i < routes.len() && (#[trigger] routes[i]).leader_peer is Some
                && routes[i].leader_peer->0.id == detecting.0 && routes[i].region.id
                == detecting.1 {
            let i = choose|i: int|
                0 <= i < routes.len() && (#[trigger] routes[i]).leader_peer is Some
                    && routes[i].leader_peer->0.id == detecting.0 && routes[i].region.id
                    == detecting.1;
            if i < n {
                assert(front[i] == routes[i]);
            }
        }
    }
}

/// The identity of a region gives back the table and the number that it was made from.
pub proof fn law_region_id_gives_back_its_parts(table_id: u32, region_number: u32)
    ensures
        region_id_number(table_id, region_number) / 0x1_0000_0000 == table_id,
        region_id_number(table_id, region_number) % 0x1_0000_0000 == region_number,
{
}

/// Routes are converted one by one, in their order: a route with a leader becomes the region with
/// that leader, one without becomes nothing, and two runs of routes become what they become one
/// after the other.
pub proof fn law_routes_are_converted_one_by_one(
    route: RegionRoute,
    a: Seq<RegionRoute>,
    b: Seq<RegionRoute>,
)
    ensures
        detecting_regions(Seq::empty()).len() == 0,
        route.leader_peer matches Some(peer) ==> detecting_regions(seq![route]) == seq![
            (peer.id, route.region.id),
        ],
        route.leader_peer is None ==> detecting_regions(seq![route]).len() == 0,
        detecting_regions(a + b) == detecting_regions(a) + detecting_regions(b),
    decreases b.len(),
{
    assert(seq![route].drop_last() =~= Seq::empty());
    assert(detecting_regions(seq![route].drop_last()) =~= Seq::empty());
    if b.len() == 0 {
        assert(a + b =~= a);
        assert(detecting_regions(a) + detecting_regions(b) =~= detecting_regions(a));
    } else {
        law_routes_are_converted_one_by_one(route, a, b.drop_last());
        assert((a + b).drop_last() =~= a + b.drop_last());
        assert((a + b).last() == b.last());
        assert(detecting_regions(a + b) =~= detecting_regions(a) + detecting_regions(b));
    }
}

} // verus!
