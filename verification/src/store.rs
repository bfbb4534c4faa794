//! The working store: the live relational state of an open project.
//!
//! Tables are held as vectors of rows kept sorted by ascending id, so a
//! listing is a plain scan.  Row ids are assigned as the current maximum
//! plus one.  Cross-entity invariants — every child row scoped to an
//! existing area, at most one team assignment per address, team numbers
//! unique within an area — are part of the store's well-formedness and
//! are preserved by every operation.

use vstd::prelude::*;

use crate::model::Address;
use crate::model::Area;
use crate::model::AreaState;
use crate::model::AreaUpdate;
use crate::model::Color;
use crate::model::Point;
use crate::model::StoreError;
use crate::model::Street;
use crate::model::StreetUpdate;
use crate::model::Team;

verus! {

impl vstd::view::DeepView for Point {
    type V = Point;

    open spec fn deep_view(&self) -> Point {
        *self
    }
}

/// One row of the area table.
#[derive(Debug)]
pub struct AreaRow {
    pub id: i64,
    pub name: String,
    pub color: Color,
    pub state: AreaState,
    pub image_fname: String,
}

/// The mathematical value of an area row.
pub struct AreaRowV {
    pub id: i64,
    pub name: Seq<char>,
    pub color: Color,
    pub state: AreaState,
    pub image_fname: Seq<char>,
}

impl vstd::view::View for AreaRow {
    type V = AreaRowV;

    open spec fn view(&self) -> AreaRowV {
        AreaRowV {
            id: self.id,
            name: self.name@,
            color: self.color,
            state: self.state,
            image_fname: self.image_fname@,
        }
    }
}

impl vstd::view::DeepView for AreaRow {
    type V = AreaRowV;

    open spec fn deep_view(&self) -> AreaRowV {
        self@
    }
}

/// One row of the street table.
#[derive(Debug)]
pub struct StreetRow {
    pub id: i64,
    pub area_id: i64,
    pub name: Option<String>,
    pub verified: bool,
}

/// The mathematical value of a street row.
pub struct StreetRowV {
    pub id: i64,
    pub area_id: i64,
    pub name: Option<Seq<char>>,
    pub verified: bool,
}

impl vstd::view::View for StreetRow {
    type V = StreetRowV;

    open spec fn view(&self) -> StreetRowV {
        StreetRowV {
            id: self.id,
            area_id: self.area_id,
            name: self.name.deep_view(),
            verified: self.verified,
        }
    }
}

impl vstd::view::DeepView for StreetRow {
    type V = StreetRowV;

    open spec fn deep_view(&self) -> StreetRowV {
        self@
    }
}

/// One row of the team table.
#[derive(Debug, Clone, Copy, PartialEq, Eq, Structural)]
pub struct TeamRow {
    pub id: i64,
    pub area_id: i64,
    pub number: u16,
}

impl vstd::view::DeepView for TeamRow {
    type V = TeamRow;

    open spec fn deep_view(&self) -> TeamRow {
        *self
    }
}

/// One row of the team-assignment table: the given address is canvassed
/// by the given team, both scoped to the same area.
#[derive(Debug, Clone, Copy, PartialEq, Eq, Structural)]
pub struct AssignRow {
    pub team_id: i64,
    pub address_id: i64,
    pub area_id: i64,
}

impl vstd::view::DeepView for AssignRow {
    type V = AssignRow;

    open spec fn deep_view(&self) -> AssignRow {
        *self
    }
}

/// The ordered vertex list of one owner (a street's polyline or a
/// team's boundary).  An owner has at most one row, and a stored list is
/// never empty: replacing a list by an empty one removes the row.
#[derive(Debug)]
pub struct PolyRow {
    pub owner_id: i64,
    pub points: Vec<Point>,
}

/// The mathematical value of a vertex-list row.
pub struct PolyRowV {
    pub owner_id: i64,
    pub points: Seq<Point>,
}

impl vstd::view::View for PolyRow {
    type V = PolyRowV;

    open spec fn view(&self) -> PolyRowV {
        PolyRowV { owner_id: self.owner_id, points: self.points@ }
    }
}

impl vstd::view::DeepView for PolyRow {
    type V = PolyRowV;

    open spec fn deep_view(&self) -> PolyRowV {
        self@
    }
}

/// One key/value row of the project-metadata table.
#[derive(Debug)]
pub struct MetaRow {
    pub key: String,
    pub value: String,
}

/// The mathematical value of a metadata row.
pub struct MetaRowV {
    pub key: Seq<char>,
    pub value: Seq<char>,
}

impl vstd::view::View for MetaRow {
    type V = MetaRowV;

    open spec fn view(&self) -> MetaRowV {
        MetaRowV { key: self.key@, value: self.value@ }
    }
}

impl vstd::view::DeepView for MetaRow {
    type V = MetaRowV;

    open spec fn deep_view(&self) -> MetaRowV {
        self@
    }
}

/// The mathematical value of an area as handed to callers.
pub struct AreaV {
    pub id: i64,
    pub name: Seq<char>,
    pub color: Color,
    pub state: AreaState,
}

impl vstd::view::View for Area {
    type V = AreaV;

    open spec fn view(&self) -> AreaV {
        AreaV { id: self.id, name: self.name@, color: self.color, state: self.state }
    }
}

impl vstd::view::DeepView for Area {
    type V = AreaV;

    open spec fn deep_view(&self) -> AreaV {
        self@
    }
}

/// The mathematical value of a street as handed to callers.
pub struct StreetV {
    pub id: i64,
    pub name: Option<Seq<char>>,
    pub verified: bool,
}

impl vstd::view::View for Street {
    type V = StreetV;

    open spec fn view(&self) -> StreetV {
        StreetV { id: self.id, name: self.name.deep_view(), verified: self.verified }
    }
}

impl vstd::view::DeepView for Street {
    type V = StreetV;

    open spec fn deep_view(&self) -> StreetV {
        self@
    }
}

/// The mathematical value of an address as handed to callers.
pub struct AddressV {
    pub id: i64,
    pub area_id: i64,
    pub house_number: Seq<char>,
    pub position: Point,
    pub confidence_milli: u32,
    pub verified: bool,
    pub estimated_flats: Option<u16>,
    pub circle_radius: u32,
    pub assigned_street_id: Option<i64>,
}

impl vstd::view::View for Address {
    type V = AddressV;

    open spec fn view(&self) -> AddressV {
        AddressV {
            id: self.id,
            area_id: self.area_id,
            house_number: self.house_number@,
            position: self.position,
            confidence_milli: self.confidence_milli,
            verified: self.verified,
            estimated_flats: self.estimated_flats,
            circle_radius: self.circle_radius,
            assigned_street_id: self.assigned_street_id,
        }
    }
}

impl vstd::view::DeepView for Address {
    type V = AddressV;

    open spec fn deep_view(&self) -> AddressV {
        self@
    }
}

/// The mathematical value of a team-address listing row.
pub struct TeamAddressV {
    pub address_id: i64,
    pub street_id: Option<i64>,
    pub street_name: Option<Seq<char>>,
    pub house_number: Seq<char>,
}

impl vstd::view::View for crate::model::TeamAddress {
    type V = TeamAddressV;

    open spec fn view(&self) -> TeamAddressV {
        TeamAddressV {
            address_id: self.address_id,
            street_id: self.street_id,
            street_name: self.street_name.deep_view(),
            house_number: self.house_number@,
        }
    }
}

impl vstd::view::DeepView for crate::model::TeamAddress {
    type V = TeamAddressV;

    open spec fn deep_view(&self) -> TeamAddressV {
        self@
    }
}

/// The area value a row stands for.
pub open spec fn area_of_row(row: AreaRowV) -> AreaV {
    AreaV { id: row.id, name: row.name, color: row.color, state: row.state }
}

/// The street value a row stands for.
pub open spec fn street_of_row(row: StreetRowV) -> StreetV {
    StreetV { id: row.id, name: row.name, verified: row.verified }
}

/// The team value a row stands for.
pub open spec fn team_of_row(row: TeamRow) -> Team {
    Team { id: row.id, number: row.number }
}


/// Whether an area row with the given id exists.
pub open spec fn has_area_in(areas: Seq<AreaRowV>, id: i64) -> bool {
    exists|i: int| 0 <= i < areas.len() && #[trigger] areas[i].id == id
}

/// Whether a street row with the given id exists, scoped to the given area.
pub open spec fn street_in(streets: Seq<StreetRowV>, area_id: i64, street_id: i64) -> bool {
    exists|i: int|
        0 <= i < streets.len() && #[trigger] streets[i].id == street_id && streets[i].area_id
            == area_id
}

/// Whether a street row with the given id exists in any area.
pub open spec fn has_street_in(streets: Seq<StreetRowV>, street_id: i64) -> bool {
    exists|i: int| 0 <= i < streets.len() && #[trigger] streets[i].id == street_id
}

/// Whether an address row with the given id exists, scoped to the given area.
pub open spec fn address_in(addresses: Seq<AddressV>, area_id: i64, address_id: i64) -> bool {
    exists|i: int|
        0 <= i < addresses.len() && #[trigger] addresses[i].id == address_id
            && addresses[i].area_id == area_id
}

/// Whether a team row with the given id exists, scoped to the given area.
pub open spec fn team_in(teams: Seq<TeamRow>, area_id: i64, team_id: i64) -> bool {
    exists|i: int|
        0 <= i < teams.len() && #[trigger] teams[i].id == team_id && teams[i].area_id == area_id
}

/// Whether a team row with the given id exists in any area.
pub open spec fn has_team_in(teams: Seq<TeamRow>, team_id: i64) -> bool {
    exists|i: int| 0 <= i < teams.len() && #[trigger] teams[i].id == team_id
}

/// Whether an assignment row for the given address exists.
pub open spec fn assigned_in(assignments: Seq<AssignRow>, address_id: i64) -> bool {
    exists|i: int|
        0 <= i < assignments.len() && #[trigger] assignments[i].address_id == address_id
}

/// Area rows are sorted by strictly ascending id, ids at least one.
pub open spec fn areas_ok(areas: Seq<AreaRowV>) -> bool {
    &&& forall|i: int, j: int|
        0 <= i < j < areas.len() ==> #[trigger] areas[i].id < #[trigger] areas[j].id
    &&& forall|i: int| 0 <= i < areas.len() ==> (#[trigger] areas[i]).id >= 1
}

/// Street rows are sorted, ids at least one, each scoped to an existing area.
pub open spec fn streets_ok(areas: Seq<AreaRowV>, streets: Seq<StreetRowV>) -> bool {
    &&& forall|i: int, j: int|
        0 <= i < j < streets.len() ==> #[trigger] streets[i].id < #[trigger] streets[j].id
    &&& forall|i: int|
        0 <= i < streets.len() ==> (#[trigger] streets[i]).id >= 1 && has_area_in(
            areas,
            streets[i].area_id,
        )
}

/// Address rows are sorted, ids at least one, each scoped to an existing
/// area; an assigned street lies in the same area.
pub open spec fn addresses_ok(
    areas: Seq<AreaRowV>,
    streets: Seq<StreetRowV>,
    addresses: Seq<AddressV>,
) -> bool {
    &&& forall|i: int, j: int|
        0 <= i < j < addresses.len() ==> #[trigger] addresses[i].id < #[trigger] addresses[j].id
    &&& forall|i: int|
        0 <= i < addresses.len() ==> {
            let a = #[trigger] addresses[i];
            &&& a.id >= 1
            &&& has_area_in(areas, a.area_id)
            &&& (a.assigned_street_id matches Some(sid) ==> street_in(streets, a.area_id, sid))
        }
}

/// Team rows are sorted, ids at least one, each scoped to an existing
/// area; team numbers never repeat within an area.
pub open spec fn teams_ok(areas: Seq<AreaRowV>, teams: Seq<TeamRow>) -> bool {
    &&& forall|i: int, j: int|
        0 <= i < j < teams.len() ==> #[trigger] teams[i].id < #[trigger] teams[j].id
            && (teams[i].area_id == teams[j].area_id ==> teams[i].number != teams[j].number)
    &&& forall|i: int|
        0 <= i < teams.len() ==> (#[trigger] teams[i]).id >= 1 && has_area_in(
            areas,
            teams[i].area_id,
        )
}

/// Each assignment refers to a team and an address that exist in its own
/// area, and no address is assigned twice.
pub open spec fn assignments_ok(
    teams: Seq<TeamRow>,
    addresses: Seq<AddressV>,
    assignments: Seq<AssignRow>,
) -> bool {
    &&& forall|i: int|
        0 <= i < assignments.len() ==> {
            let a = #[trigger] assignments[i];
            &&& team_in(teams, a.area_id, a.team_id)
            &&& address_in(addresses, a.area_id, a.address_id)
        }
    &&& forall|i: int, j: int|
        0 <= i < j < assignments.len() ==> #[trigger] assignments[i].address_id
            != #[trigger] assignments[j].address_id
}

/// Vertex-list rows: distinct owners, never empty, each owner a street.
pub open spec fn polylines_ok(streets: Seq<StreetRowV>, rows: Seq<PolyRowV>) -> bool {
    &&& poly_owners_distinct(rows)
    &&& forall|i: int|
        0 <= i < rows.len() ==> {
            let p = #[trigger] rows[i];
            p.points.len() >= 1 && has_street_in(streets, p.owner_id)
        }
}

/// Vertex-list rows: distinct owners, never empty, each owner a team.
pub open spec fn bounds_ok(teams: Seq<TeamRow>, rows: Seq<PolyRowV>) -> bool {
    &&& poly_owners_distinct(rows)
    &&& forall|i: int|
        0 <= i < rows.len() ==> {
            let p = #[trigger] rows[i];
            p.points.len() >= 1 && has_team_in(teams, p.owner_id)
        }
}

/// Metadata keys never repeat.
pub open spec fn meta_ok(meta: Seq<MetaRowV>) -> bool {
    forall|i: int, j: int|
        0 <= i < j < meta.len() ==> #[trigger] meta[i].key != #[trigger] meta[j].key
}

/// The whole store as a mathematical value.
#[verifier::ext_equal]
pub struct StoreView {
    pub meta: Seq<MetaRowV>,
    pub areas: Seq<AreaRowV>,
    pub streets: Seq<StreetRowV>,
    pub street_polylines: Seq<PolyRowV>,
    pub addresses: Seq<AddressV>,
    pub teams: Seq<TeamRow>,
    pub assignments: Seq<AssignRow>,
    pub team_bounds: Seq<PolyRowV>,
}

impl StoreView {
    /// Whether an area with the given id exists.
    pub open spec fn has_area(self, id: i64) -> bool {
        has_area_in(self.areas, id)
    }

    /// Whether the given street exists and is scoped to the given area.
    pub open spec fn street_in_area(self, area_id: i64, street_id: i64) -> bool {
        street_in(self.streets, area_id, street_id)
    }

    /// Whether a street with the given id exists in any area.
    pub open spec fn has_street(self, street_id: i64) -> bool {
        has_street_in(self.streets, street_id)
    }

    /// Whether the given address exists and is scoped to the given area.
    pub open spec fn address_in_area(self, area_id: i64, address_id: i64) -> bool {
        address_in(self.addresses, area_id, address_id)
    }

    /// Whether a team with the given id exists and is scoped to the given area.
    pub open spec fn team_in_area(self, area_id: i64, team_id: i64) -> bool {
        team_in(self.teams, area_id, team_id)
    }

    /// Whether a team with the given id exists in any area.
    pub open spec fn has_team(self, team_id: i64) -> bool {
        has_team_in(self.teams, team_id)
    }

    /// Whether the given address already has a team assignment.
    pub open spec fn address_assigned(self, address_id: i64) -> bool {
        assigned_in(self.assignments, address_id)
    }

    /// The id the next added area receives.
    pub open spec fn next_area_id(self) -> int {
        if self.areas.len() == 0 {
            1
        } else {
            self.areas.last().id + 1
        }
    }

    /// The id the next added street receives.
    pub open spec fn next_street_id(self) -> int {
        if self.streets.len() == 0 {
            1
        } else {
            self.streets.last().id + 1
        }
    }

    /// The id the next added address receives.
    pub open spec fn next_address_id(self) -> int {
        if self.addresses.len() == 0 {
            1
        } else {
            self.addresses.last().id + 1
        }
    }

    /// The id the next added team receives.
    pub open spec fn next_team_id(self) -> int {
        if self.teams.len() == 0 {
            1
        } else {
            self.teams.last().id + 1
        }
    }

    /// The store's well-formedness: what the schema of the embedded
    /// store guarantees of every reachable state.
    pub open spec fn wf(self) -> bool {
        &&& areas_ok(self.areas)
        &&& streets_ok(self.areas, self.streets)
        &&& addresses_ok(self.areas, self.streets, self.addresses)
        &&& teams_ok(self.areas, self.teams)
        &&& assignments_ok(self.teams, self.addresses, self.assignments)
        &&& polylines_ok(self.streets, self.street_polylines)
        &&& bounds_ok(self.teams, self.team_bounds)
        &&& meta_ok(self.meta)
    }

    /// This store with the metadata table replaced.
    pub open spec fn with_meta(self, meta: Seq<MetaRowV>) -> StoreView {
        StoreView { meta, ..self }
    }

    /// This store with the area table replaced.
    pub open spec fn with_areas(self, areas: Seq<AreaRowV>) -> StoreView {
        StoreView { areas, ..self }
    }

    /// This store with the street table replaced.
    pub open spec fn with_streets(self, streets: Seq<StreetRowV>) -> StoreView {
        StoreView { streets, ..self }
    }

    /// This store with the street-polyline table replaced.
    pub open spec fn with_street_polylines(self, street_polylines: Seq<PolyRowV>) -> StoreView {
        StoreView { street_polylines, ..self }
    }

    /// This store with the address table replaced.
    pub open spec fn with_addresses(self, addresses: Seq<AddressV>) -> StoreView {
        StoreView { addresses, ..self }
    }

    /// This store with the team table replaced.
    pub open spec fn with_teams(self, teams: Seq<TeamRow>) -> StoreView {
        StoreView { teams, ..self }
    }

    /// This store with the assignment table replaced.
    pub open spec fn with_assignments(self, assignments: Seq<AssignRow>) -> StoreView {
        StoreView { assignments, ..self }
    }

    /// This store with the team-boundary table replaced.
    pub open spec fn with_team_bounds(self, team_bounds: Seq<PolyRowV>) -> StoreView {
        StoreView { team_bounds, ..self }
    }

    /// The empty store.
    pub open spec fn empty() -> StoreView {
        StoreView {
            meta: Seq::empty(),
            areas: Seq::empty(),
            streets: Seq::empty(),
            street_polylines: Seq::empty(),
            addresses: Seq::empty(),
            teams: Seq::empty(),
            assignments: Seq::empty(),
            team_bounds: Seq::empty(),
        }
    }
}

/// Re-fielding the area table without shortening it, keeping ids
/// pointwise, loses no area id.
pub proof fn lemma_area_ids_kept(a1: Seq<AreaRowV>, a2: Seq<AreaRowV>)
    requires
        a2.len() >= a1.len(),
        forall|k: int| 0 <= k < a1.len() ==> #[trigger] a2[k].id == a1[k].id,
    ensures
        forall|id: i64| has_area_in(a1, id) ==> #[trigger] has_area_in(a2, id),
{
    assert forall|id: i64| has_area_in(a1, id) implies #[trigger] has_area_in(a2, id) by {
        let w = choose|w: int| 0 <= w < a1.len() && a1[w].id == id;
        assert(a2[w].id == id);
    }
}

/// Re-fielding the street table without shortening it, keeping ids and
/// owning areas pointwise, loses no street reference.
pub proof fn lemma_street_refs_kept(s1: Seq<StreetRowV>, s2: Seq<StreetRowV>)
    requires
        s2.len() >= s1.len(),
        forall|k: int|
            #![trigger s2[k]]
            0 <= k < s1.len() ==> s2[k].id == s1[k].id && s2[k].area_id == s1[k].area_id,
    ensures
        forall|aid: i64, id: i64| street_in(s1, aid, id) ==> #[trigger] street_in(s2, aid, id),
        forall|id: i64| has_street_in(s1, id) ==> #[trigger] has_street_in(s2, id),
{
    assert forall|aid: i64, id: i64| street_in(s1, aid, id) implies #[trigger] street_in(
        s2,
        aid,
        id,
    ) by {
        let w = choose|w: int| 0 <= w < s1.len() && s1[w].id == id && s1[w].area_id == aid;
        assert(s2[w].id == id && s2[w].area_id == aid);
    }
    assert forall|id: i64| has_street_in(s1, id) implies #[trigger] has_street_in(s2, id) by {
        let w = choose|w: int| 0 <= w < s1.len() && s1[w].id == id;
        assert(s2[w].id == id);
    }
}

/// Re-fielding the address table without shortening it, keeping ids and
/// owning areas pointwise, loses no address reference.
pub proof fn lemma_address_refs_kept(a1: Seq<AddressV>, a2: Seq<AddressV>)
    requires
        a2.len() >= a1.len(),
        forall|k: int|
            #![trigger a2[k]]
            0 <= k < a1.len() ==> a2[k].id == a1[k].id && a2[k].area_id == a1[k].area_id,
    ensures
        forall|aid: i64, id: i64| address_in(a1, aid, id) ==> #[trigger] address_in(a2, aid, id),
{
    assert forall|aid: i64, id: i64| address_in(a1, aid, id) implies #[trigger] address_in(
        a2,
        aid,
        id,
    ) by {
        let w = choose|w: int| 0 <= w < a1.len() && a1[w].id == id && a1[w].area_id == aid;
        assert(a2[w].id == id && a2[w].area_id == aid);
    }
}

/// Re-fielding the team table without shortening it, keeping ids and
/// owning areas pointwise, loses no team reference.
pub proof fn lemma_team_refs_kept(t1: Seq<TeamRow>, t2: Seq<TeamRow>)
    requires
        t2.len() >= t1.len(),
        forall|k: int|
            #![trigger t2[k]]
            0 <= k < t1.len() ==> t2[k].id == t1[k].id && t2[k].area_id == t1[k].area_id,
    ensures
        forall|aid: i64, id: i64| team_in(t1, aid, id) ==> #[trigger] team_in(t2, aid, id),
        forall|id: i64| has_team_in(t1, id) ==> #[trigger] has_team_in(t2, id),
{
    assert forall|aid: i64, id: i64| team_in(t1, aid, id) implies #[trigger] team_in(
        t2,
        aid,
        id,
    ) by {
        let w = choose|w: int| 0 <= w < t1.len() && t1[w].id == id && t1[w].area_id == aid;
        assert(t2[w].id == id && t2[w].area_id == aid);
    }
    assert forall|id: i64| has_team_in(t1, id) implies #[trigger] has_team_in(t2, id) by {
        let w = choose|w: int| 0 <= w < t1.len() && t1[w].id == id;
        assert(t2[w].id == id);
    }
}

/// Street well-formedness carried across an area-table change that
/// loses no area id.
pub proof fn lemma_streets_ok_new_areas(
    a1: Seq<AreaRowV>,
    a2: Seq<AreaRowV>,
    streets: Seq<StreetRowV>,
)
    requires
        streets_ok(a1, streets),
        forall|id: i64| has_area_in(a1, id) ==> #[trigger] has_area_in(a2, id),
    ensures
        streets_ok(a2, streets),
{
    assert forall|i: int|
        0 <= i < streets.len() implies (#[trigger] streets[i]).id >= 1 && has_area_in(
        a2,
        streets[i].area_id,
    ) by {
        assert(streets[i].id >= 1 && has_area_in(a1, streets[i].area_id));
    }
}

/// Address well-formedness carried across changes of the area and
/// street tables that lose no reference.
pub proof fn lemma_addresses_ok_new_refs(
    a1: Seq<AreaRowV>,
    a2: Seq<AreaRowV>,
    s1: Seq<StreetRowV>,
    s2: Seq<StreetRowV>,
    addresses: Seq<AddressV>,
)
    requires
        addresses_ok(a1, s1, addresses),
        forall|id: i64| has_area_in(a1, id) ==> #[trigger] has_area_in(a2, id),
        forall|aid: i64, id: i64| street_in(s1, aid, id) ==> #[trigger] street_in(s2, aid, id),
    ensures
        addresses_ok(a2, s2, addresses),
{
    assert forall|i: int|
        0 <= i < addresses.len() implies {
        let a = #[trigger] addresses[i];
        &&& a.id >= 1
        &&& has_area_in(a2, a.area_id)
        &&& (a.assigned_street_id matches Some(sid) ==> street_in(s2, a.area_id, sid))
    } by {
        assert(addresses[i].id >= 1 && has_area_in(a1, addresses[i].area_id));
        if addresses[i].assigned_street_id is Some {
            let sid = addresses[i].assigned_street_id->0;
            assert(street_in(s1, addresses[i].area_id, sid));
        }
    }
}

/// Team well-formedness carried across an area-table change that loses
/// no area id.
pub proof fn lemma_teams_ok_new_areas(a1: Seq<AreaRowV>, a2: Seq<AreaRowV>, teams: Seq<TeamRow>)
    requires
        teams_ok(a1, teams),
        forall|id: i64| has_area_in(a1, id) ==> #[trigger] has_area_in(a2, id),
    ensures
        teams_ok(a2, teams),
{
    assert forall|i: int|
        0 <= i < teams.len() implies (#[trigger] teams[i]).id >= 1 && has_area_in(
        a2,
        teams[i].area_id,
    ) by {
        assert(teams[i].id >= 1 && has_area_in(a1, teams[i].area_id));
    }
}

/// Assignment well-formedness carried across changes of the team and
/// address tables that lose no reference.
pub proof fn lemma_assignments_ok_new_refs(
    t1: Seq<TeamRow>,
    t2: Seq<TeamRow>,
    ad1: Seq<AddressV>,
    ad2: Seq<AddressV>,
    assignments: Seq<AssignRow>,
)
    requires
        assignments_ok(t1, ad1, assignments),
        forall|aid: i64, id: i64| team_in(t1, aid, id) ==> #[trigger] team_in(t2, aid, id),
        forall|aid: i64, id: i64| address_in(ad1, aid, id) ==> #[trigger] address_in(ad2, aid, id),
    ensures
        assignments_ok(t2, ad2, assignments),
{
    assert forall|i: int|
        0 <= i < assignments.len() implies {
        let a = #[trigger] assignments[i];
        &&& team_in(t2, a.area_id, a.team_id)
        &&& address_in(ad2, a.area_id, a.address_id)
    } by {
        assert(team_in(t1, assignments[i].area_id, assignments[i].team_id));
        assert(address_in(ad1, assignments[i].area_id, assignments[i].address_id));
    }
}

/// Polyline well-formedness carried across a street-table change that
/// loses no street id.
pub proof fn lemma_polylines_ok_new_streets(
    s1: Seq<StreetRowV>,
    s2: Seq<StreetRowV>,
    rows: Seq<PolyRowV>,
)
    requires
        polylines_ok(s1, rows),
        forall|id: i64| has_street_in(s1, id) ==> #[trigger] has_street_in(s2, id),
    ensures
        polylines_ok(s2, rows),
{
    assert forall|i: int|
        0 <= i < rows.len() implies {
        let p = #[trigger] rows[i];
        p.points.len() >= 1 && has_street_in(s2, p.owner_id)
    } by {
        assert(rows[i].points.len() >= 1 && has_street_in(s1, rows[i].owner_id));
    }
}

/// Boundary well-formedness carried across a team-table change that
/// loses no team id.
pub proof fn lemma_bounds_ok_new_teams(t1: Seq<TeamRow>, t2: Seq<TeamRow>, rows: Seq<PolyRowV>)
    requires
        bounds_ok(t1, rows),
        forall|id: i64| has_team_in(t1, id) ==> #[trigger] has_team_in(t2, id),
    ensures
        bounds_ok(t2, rows),
{
    assert forall|i: int|
        0 <= i < rows.len() implies {
        let p = #[trigger] rows[i];
        p.points.len() >= 1 && has_team_in(t2, p.owner_id)
    } by {
        assert(rows[i].points.len() >= 1 && has_team_in(t1, rows[i].owner_id));
    }
}

/// The working store.  Fields are reachable only through the operations
/// below, which keep the store well-formed.
#[derive(Debug)]
pub struct WorkingStore {
    pub(crate) meta: Vec<MetaRow>,
    pub(crate) areas: Vec<AreaRow>,
    pub(crate) streets: Vec<StreetRow>,
    pub(crate) street_polylines: Vec<PolyRow>,
    pub(crate) addresses: Vec<Address>,
    pub(crate) teams: Vec<TeamRow>,
    pub(crate) assignments: Vec<AssignRow>,
    pub(crate) team_bounds: Vec<PolyRow>,
}

impl vstd::view::View for WorkingStore {
    type V = StoreView;

    closed spec fn view(&self) -> StoreView {
        StoreView {
            meta: self.meta.deep_view(),
            areas: self.areas.deep_view(),
            streets: self.streets.deep_view(),
            street_polylines: self.street_polylines.deep_view(),
            addresses: self.addresses.deep_view(),
            teams: self.teams.deep_view(),
            assignments: self.assignments.deep_view(),
            team_bounds: self.team_bounds.deep_view(),
        }
    }
}

impl WorkingStore {
    /// A fresh store with no rows.
    pub fn new() -> (s: WorkingStore)
        ensures
            s@.wf(),
            s@ =~~= StoreView::empty(),
    {
        let s = WorkingStore {
            meta: Vec::new(),
            areas: Vec::new(),
            streets: Vec::new(),
            street_polylines: Vec::new(),
            addresses: Vec::new(),
            teams: Vec::new(),
            assignments: Vec::new(),
            team_bounds: Vec::new(),
        };
        proof {
            assert(s@ =~~= StoreView::empty());
        }
        s
    }

    /// Insert a new area row with the given name, color and image file
    /// name.  The new area starts in the `Imported` state, receives the
    /// next free id, and is appended at the end of the listing.
    pub fn add_area(&mut self, name: &str, color: Color, image_fname: &str) -> (r: Result<
        Area,
        StoreError,
    >)
        requires
            old(self)@.wf(),
        ensures
            final(self)@.wf(),
            match r {
                Ok(area) => {
                    &&& area@ == (AreaV {
                        id: area.id,
                        name: name@,
                        color,
                        state: AreaState::Imported,
                    })
                    &&& area.id == old(self)@.next_area_id()
                    &&& final(self)@ =~~= old(self)@.with_areas(
                        old(self)@.areas.push(
                            AreaRowV {
                                id: area.id,
                                name: name@,
                                color,
                                state: AreaState::Imported,
                                image_fname: image_fname@,
                            },
                        ),
                    )
                },
                Err(e) => {
                    &&& e == StoreError::Full
                    &&& old(self)@.next_area_id() > i64::MAX
                    &&& final(self)@ == old(self)@
                },
            },
    {
        let id = match self.next_area_id() {
            Some(id) => id,
            None => {
                return Err(StoreError::Full);
            },
        };
        let row = AreaRow {
            id,
            name: name.to_owned(),
            color,
            state: AreaState::Imported,
            image_fname: image_fname.to_owned(),
        };
        let ghost rowv = row@;
        proof {
            assert forall|i: int| 0 <= i < self@.areas.len() implies #[trigger] self@.areas[i].id
                < id by {
                if i < self@.areas.len() - 1 {
                    assert(self@.areas[i].id < self@.areas[self@.areas.len() - 1].id);
                }
            }
        }
        self.areas.push(row);
        proof {
            assert(self@.areas =~= old(self)@.areas.push(rowv));
            assert(self@ =~~= old(self)@.with_areas(old(self)@.areas.push(rowv)));
            lemma_area_ids_kept(old(self)@.areas, self@.areas);
            assert(areas_ok(self@.areas));
            lemma_streets_ok_new_areas(old(self)@.areas, self@.areas, self@.streets);
            lemma_addresses_ok_new_refs(
                old(self)@.areas,
                self@.areas,
                self@.streets,
                self@.streets,
                self@.addresses,
            );
            lemma_teams_ok_new_areas(old(self)@.areas, self@.areas, self@.teams);
            assert(self@.wf());
        }
        Ok(Area { id, name: name.to_owned(), color, state: AreaState::Imported })
    }

    /// The id the next added area will receive, or nothing when the id
    /// space is exhausted.
    fn next_area_id(&self) -> (r: Option<i64>)
        ensures
            match r {
                Some(id) => id == self@.next_area_id(),
                None => self@.next_area_id() > i64::MAX,
            },
    {
        if self.areas.len() == 0 {
            Some(1)
        } else {
            let last = self.areas[self.areas.len() - 1].id;
            if last == i64::MAX {
                None
            } else {
                Some(last + 1)
            }
        }
    }

    /// All areas, listed by ascending id.
    #[verifier::loop_isolation(false)]
    pub fn get_areas(&self) -> (r: Vec<Area>)
        requires
            self@.wf(),
        ensures
            r.deep_view().len() == self@.areas.len(),
            forall|i: int|
                0 <= i < self@.areas.len() ==> r.deep_view()[i] == area_of_row(
                    #[trigger] self@.areas[i],
                ),
    {
        let mut out: Vec<Area> = Vec::new();
        let mut idx: usize = 0;
        while idx < self.areas.len()
            invariant
                idx <= self.areas.len(),
                out.deep_view().len() == idx,
                forall|i: int|
                    0 <= i < idx ==> out.deep_view()[i] == area_of_row(#[trigger] self@.areas[i]),
            decreases self.areas.len() - idx,
        {
            let row = &self.areas[idx];
            let area = Area { id: row.id, name: row.name.clone(), color: row.color, state: row.state };
            let ghost pre = out.deep_view();
            let ghost areav = area@;
            out.push(area);
            proof {
                assert(out.deep_view() =~= pre.push(areav));
            }
            idx += 1;
        }
        out
    }

    /// The area with the given id, or nothing when no such area exists.
    #[verifier::loop_isolation(false)]
    pub fn get_area_by_id(&self, id: i64) -> (r: Option<Area>)
        requires
            self@.wf(),
        ensures
            match r {
                Some(area) => exists|i: int|
                    0 <= i < self@.areas.len() && #[trigger] self@.areas[i].id == id && area@
                        == area_of_row(self@.areas[i]),
                None => !self@.has_area(id),
            },
    {
        let mut idx: usize = 0;
        while idx < self.areas.len()
            invariant
                idx <= self.areas.len(),
                forall|i: int| 0 <= i < idx ==> #[trigger] self@.areas[i].id != id,
            decreases self.areas.len() - idx,
        {
            let row = &self.areas[idx];
            if row.id == id {
                let area = Area {
                    id: row.id,
                    name: row.name.clone(),
                    color: row.color,
                    state: row.state,
                };
                proof {
                    assert(self@.areas[idx as int].id == id && area@ == area_of_row(
                        self@.areas[idx as int],
                    ));
                }
                return Some(area);
            }
            idx += 1;
        }
        None
    }

    /// Apply a partial update to the area with the given id: fields the
    /// update leaves as `None` keep their value.  Fails with `NotFound`
    /// when no such area exists.
    #[verifier::loop_isolation(false)]
    pub fn update_area(&mut self, id: i64, update: &AreaUpdate) -> (r: Result<Area, StoreError>)
        requires
            old(self)@.wf(),
        ensures
            final(self)@.wf(),
            match r {
                Ok(area) => exists|i: int|
                    {
                        &&& 0 <= i < old(self)@.areas.len()
                        &&& #[trigger] old(self)@.areas[i].id == id
                        &&& area@ == area_of_row(final(self)@.areas[i])
                        &&& final(self)@ =~~= old(self)@.with_areas(
                            old(self)@.areas.update(
                                i,
                                AreaRowV {
                                    id,
                                    name: match update.name.deep_view() {
                                        Some(n) => n,
                                        None => old(self)@.areas[i].name,
                                    },
                                    color: match update.color {
                                        Some(c) => c,
                                        None => old(self)@.areas[i].color,
                                    },
                                    state: match update.state {
                                        Some(s) => s,
                                        None => old(self)@.areas[i].state,
                                    },
                                    image_fname: old(self)@.areas[i].image_fname,
                                },
                            ),
                        )
                    },
                Err(e) => {
                    &&& e == StoreError::NotFound
                    &&& !old(self)@.has_area(id)
                    &&& final(self)@ == old(self)@
                },
            },
    {
        let mut idx: usize = 0;
        while idx < self.areas.len()
            invariant
                *self == *old(self),
                idx <= self.areas.len(),
                forall|i: int| 0 <= i < idx ==> #[trigger] self@.areas[i].id != id,
            decreases self.areas.len() - idx,
        {
            if self.areas[idx].id == id {
                let row = &self.areas[idx];
                let new_row = AreaRow {
                    id: row.id,
                    name: match &update.name {
                        Some(n) => n.clone(),
                        None => row.name.clone(),
                    },
                    color: match update.color {
                        Some(c) => c,
                        None => row.color,
                    },
                    state: match update.state {
                        Some(s) => s,
                        None => row.state,
                    },
                    image_fname: row.image_fname.clone(),
                };
                let area = Area {
                    id: new_row.id,
                    name: new_row.name.clone(),
                    color: new_row.color,
                    state: new_row.state,
                };
                let ghost new_rowv = new_row@;
                self.areas[idx] = new_row;
                proof {
                    assert(self@.areas =~= old(self)@.areas.update(idx as int, new_rowv));
                    assert(self@ =~~= old(self)@.with_areas(
                        old(self)@.areas.update(idx as int, new_rowv),
                    ));
                    assert forall|k: int| 0 <= k < old(self)@.areas.len()
                        implies #[trigger] self@.areas[k].id == old(self)@.areas[k].id by {}
                    lemma_area_ids_kept(old(self)@.areas, self@.areas);
                    assert forall|i: int, j: int| 0 <= i < j < self@.areas.len()
                        implies self@.areas[i].id < self@.areas[j].id by {
                        assert(old(self)@.areas[i].id < old(self)@.areas[j].id);
                    }
                    assert(areas_ok(self@.areas));
                    lemma_streets_ok_new_areas(old(self)@.areas, self@.areas, self@.streets);
                    lemma_addresses_ok_new_refs(
                        old(self)@.areas,
                        self@.areas,
                        self@.streets,
                        self@.streets,
                        self@.addresses,
                    );
                    lemma_teams_ok_new_areas(old(self)@.areas, self@.areas, self@.teams);
                    assert(self@.wf());
                    assert(old(self)@.areas[idx as int].id == id);
                    assert(area@ == area_of_row(self@.areas[idx as int]));
                    assert(new_rowv == (AreaRowV {
                        id,
                        name: match update.name.deep_view() {
                            Some(n) => n,
                            None => old(self)@.areas[idx as int].name,
                        },
                        color: match update.color {
                            Some(c) => c,
                            None => old(self)@.areas[idx as int].color,
                        },
                        state: match update.state {
                            Some(s) => s,
                            None => old(self)@.areas[idx as int].state,
                        },
                        image_fname: old(self)@.areas[idx as int].image_fname,
                    }));
                }
                return Ok(area);
            }
            idx += 1;
        }
        Err(StoreError::NotFound)
    }
}

/// The streets scoped to one area, in table order (ascending id), as
/// street values.
pub open spec fn streets_of_area(streets: Seq<StreetRowV>, area_id: i64) -> Seq<StreetV>
    decreases streets.len(),
{
    if streets.len() == 0 {
        Seq::empty()
    } else {
        let rest = streets_of_area(streets.drop_last(), area_id);
        if streets.last().area_id == area_id {
            rest.push(street_of_row(streets.last()))
        } else {
            rest
        }
    }
}

/// The vertex list stored for the given owner, by first match.
pub open spec fn poly_lookup(rows: Seq<PolyRowV>, owner: i64) -> Option<Seq<Point>>
    decreases rows.len(),
{
    if rows.len() == 0 {
        None
    } else if rows[0].owner_id == owner {
        Some(rows[0].points)
    } else {
        poly_lookup(rows.drop_first(), owner)
    }
}

/// With distinct owners, `poly_lookup` answers exactly as the table
/// reads: the owner's row if one exists, nothing otherwise.
pub proof fn lemma_poly_lookup_unique(rows: Seq<PolyRowV>, owner: i64)
    requires
        forall|i: int, j: int|
            0 <= i < j < rows.len() ==> #[trigger] rows[i].owner_id != #[trigger] rows[j].owner_id,
    ensures
        forall|i: int|
            0 <= i < rows.len() && #[trigger] rows[i].owner_id == owner ==> poly_lookup(rows, owner)
                == Some(rows[i].points),
        (forall|i: int| 0 <= i < rows.len() ==> #[trigger] rows[i].owner_id != owner)
            ==> poly_lookup(rows, owner) is None,
    decreases rows.len(),
{
    if rows.len() > 0 {
        if rows[0].owner_id == owner {
            assert forall|i: int|
                0 <= i < rows.len() && #[trigger] rows[i].owner_id == owner implies poly_lookup(
                rows,
                owner,
            ) == Some(rows[i].points) by {
                if i != 0 {
                    assert(rows[0].owner_id != rows[i].owner_id);
                }
            }
        } else {
            let rest = rows.drop_first();
            lemma_poly_lookup_unique(rest, owner);
            assert forall|i: int|
                0 <= i < rows.len() && #[trigger] rows[i].owner_id == owner implies poly_lookup(
                rows,
                owner,
            ) == Some(rows[i].points) by {
                assert(rest[i - 1] == rows[i]);
            }
            if forall|i: int| 0 <= i < rows.len() ==> #[trigger] rows[i].owner_id != owner {
                assert forall|i: int| 0 <= i < rest.len() implies #[trigger] rest[i].owner_id
                    != owner by {
                    assert(rest[i] == rows[i + 1]);
                }
            }
        }
    }
}

impl WorkingStore {
    /// Whether an area with the given id exists.
    #[verifier::loop_isolation(false)]
    fn area_exists(&self, id: i64) -> (r: bool)
        ensures
            r == self@.has_area(id),
    {
        let mut idx: usize = 0;
        while idx < self.areas.len()
            invariant
                idx <= self.areas.len(),
                forall|i: int| 0 <= i < idx ==> #[trigger] self@.areas[i].id != id,
            decreases self.areas.len() - idx,
        {
            if self.areas[idx].id == id {
                proof {
                    assert(self@.areas[idx as int].id == id);
                }
                return true;
            }
            idx += 1;
        }
        false
    }

    /// The table position of the street with the given id in the given
    /// area, if one exists.
    #[verifier::loop_isolation(false)]
    fn street_idx(&self, area_id: i64, street_id: i64) -> (r: Option<usize>)
        ensures
            match r {
                Some(i) => 0 <= i < self@.streets.len() && self@.streets[i as int].id == street_id
                    && self@.streets[i as int].area_id == area_id,
                None => !self@.street_in_area(area_id, street_id),
            },
    {
        let mut idx: usize = 0;
        while idx < self.streets.len()
            invariant
                idx <= self.streets.len(),
                forall|i: int|
                    0 <= i < idx ==> !(#[trigger] self@.streets[i].id == street_id
                        && self@.streets[i].area_id == area_id),
            decreases self.streets.len() - idx,
        {
            let row = &self.streets[idx];
            if row.id == street_id && row.area_id == area_id {
                return Some(idx);
            }
            idx += 1;
        }
        None
    }

    /// Insert a new street row scoped to the given area, with no name
    /// and not yet verified.  Fails with `ForeignKey` when the area does
    /// not exist.
    pub fn add_street(&mut self, area_id: i64) -> (r: Result<Street, StoreError>)
        requires
            old(self)@.wf(),
        ensures
            final(self)@.wf(),
            match r {
                Ok(street) => {
                    &&& old(self)@.has_area(area_id)
                    &&& street@ == (StreetV { id: street.id, name: None, verified: false })
                    &&& street.id == old(self)@.next_street_id()
                    &&& final(self)@ =~~= old(self)@.with_streets(
                        old(self)@.streets.push(
                            StreetRowV { id: street.id, area_id, name: None, verified: false },
                        ),
                    )
                },
                Err(e) => {
                    &&& final(self)@ == old(self)@
                    &&& (e == StoreError::ForeignKey || e == StoreError::Full)
                    &&& (e == StoreError::ForeignKey <==> !old(self)@.has_area(area_id))
                    &&& (e == StoreError::Full ==> old(self)@.next_street_id() > i64::MAX)
                },
            },
    {
        if !self.area_exists(area_id) {
            return Err(StoreError::ForeignKey);
        }
        let id = if self.streets.len() == 0 {
            1
        } else {
            let last = self.streets[self.streets.len() - 1].id;
            if last == i64::MAX {
                return Err(StoreError::Full);
            }
            last + 1
        };
        let row = StreetRow { id, area_id, name: None, verified: false };
        let ghost rowv = row@;
        proof {
            assert forall|i: int| 0 <= i < self@.streets.len() implies #[trigger] self@.streets[i].id
                < id by {
                if i < self@.streets.len() - 1 {
                    assert(self@.streets[i].id < self@.streets[self@.streets.len() - 1].id);
                }
            }
        }
        self.streets.push(row);
        proof {
            assert(self@.streets =~= old(self)@.streets.push(rowv));
            assert(self@ =~~= old(self)@.with_streets(old(self)@.streets.push(rowv)));
            lemma_street_refs_kept(old(self)@.streets, self@.streets);
            assert(streets_ok(self@.areas, self@.streets));
            lemma_addresses_ok_new_refs(
                self@.areas,
                self@.areas,
                old(self)@.streets,
                self@.streets,
                self@.addresses,
            );
            lemma_polylines_ok_new_streets(
                old(self)@.streets,
                self@.streets,
                self@.street_polylines,
            );
            assert(self@.wf());
        }
        Ok(Street { id, name: None, verified: false })
    }

    /// The streets of the given area, listed by ascending id.
    #[verifier::loop_isolation(false)]
    pub fn get_streets(&self, area_id: i64) -> (r: Vec<Street>)
        requires
            self@.wf(),
        ensures
            r.deep_view() == streets_of_area(self@.streets, area_id),
    {
        let mut out: Vec<Street> = Vec::new();
        let mut idx: usize = 0;
        proof {
            assert(self@.streets.take(0) =~= Seq::<StreetRowV>::empty());
        }
        while idx < self.streets.len()
            invariant
                idx <= self.streets.len(),
                out.deep_view() == streets_of_area(self@.streets.take(idx as int), area_id),
            decreases self.streets.len() - idx,
        {
            let ghost pre = out.deep_view();
            let row = &self.streets[idx];
            if row.area_id == area_id {
                let street = Street {
                    id: row.id,
                    name: clone_opt_string(&row.name),
                    verified: row.verified,
                };
                let ghost sv = street@;
                out.push(street);
                proof {
                    assert(out.deep_view() =~= pre.push(sv));
                    assert(sv == street_of_row(self@.streets[idx as int]));
                }
            }
            proof {
                assert(self@.streets.take(idx as int + 1).drop_last() =~= self@.streets.take(
                    idx as int,
                ));
                assert(self@.streets.take(idx as int + 1).last() == self@.streets[idx as int]);
                assert(out.deep_view() == streets_of_area(
                    self@.streets.take(idx as int + 1),
                    area_id,
                ));
            }
            idx += 1;
        }
        proof {
            assert(self@.streets.take(self@.streets.len() as int) =~= self@.streets);
        }
        out
    }

    /// The street with the given id in the given area, or nothing when
    /// no such street exists there.
    pub fn get_street_by_id(&self, area_id: i64, street_id: i64) -> (r: Option<Street>)
        requires
            self@.wf(),
        ensures
            match r {
                Some(street) => exists|i: int|
                    0 <= i < self@.streets.len() && #[trigger] self@.streets[i].id == street_id
                        && self@.streets[i].area_id == area_id && street@ == street_of_row(
                        self@.streets[i],
                    ),
                None => !self@.street_in_area(area_id, street_id),
            },
    {
        match self.street_idx(area_id, street_id) {
            Some(idx) => {
                let row = &self.streets[idx];
                let street = Street {
                    id: row.id,
                    name: clone_opt_string(&row.name),
                    verified: row.verified,
                };
                proof {
                    assert(self@.streets[idx as int].id == street_id && street@ == street_of_row(
                        self@.streets[idx as int],
                    ));
                }
                Some(street)
            },
            None => None,
        }
    }

    /// Apply a partial update to the street with the given id in the
    /// given area: fields the update leaves as `None` keep their value.
    /// Fails with `NotFound` when no such street exists there.
    pub fn update_street(&mut self, area_id: i64, street_id: i64, update: &StreetUpdate) -> (r:
        Result<Street, StoreError>)
        requires
            old(self)@.wf(),
        ensures
            final(self)@.wf(),
            match r {
                Ok(street) => exists|i: int|
                    {
                        &&& 0 <= i < old(self)@.streets.len()
                        &&& #[trigger] old(self)@.streets[i].id == street_id
                        &&& old(self)@.streets[i].area_id == area_id
                        &&& street@ == street_of_row(final(self)@.streets[i])
                        &&& final(self)@ == old(self)@.with_streets(
                            old(self)@.streets.update(
                                i,
                                StreetRowV {
                                    id: street_id,
                                    area_id,
                                    name: match update.name {
                                        crate::model::FieldUpdate::Keep => old(
                                            self,
                                        )@.streets[i].name,
                                        crate::model::FieldUpdate::Clear => None,
                                        crate::model::FieldUpdate::Assign(n) => Some(n@),
                                    },
                                    verified: match update.verified {
                                        Some(v) => v,
                                        None => old(self)@.streets[i].verified,
                                    },
                                },
                            ),
                        )
                    },
                Err(e) => {
                    &&& e == StoreError::NotFound
                    &&& !old(self)@.street_in_area(area_id, street_id)
                    &&& final(self)@ == old(self)@
                },
            },
    {
        let idx = match self.street_idx(area_id, street_id) {
            Some(idx) => idx,
            None => {
                return Err(StoreError::NotFound);
            },
        };
        let row = &self.streets[idx];
        let new_row = StreetRow {
            id: row.id,
            area_id: row.area_id,
            name: match &update.name {
                crate::model::FieldUpdate::Keep => clone_opt_string(&row.name),
                crate::model::FieldUpdate::Clear => None,
                crate::model::FieldUpdate::Assign(n) => Some(n.clone()),
            },
            verified: match update.verified {
                Some(v) => v,
                None => row.verified,
            },
        };
        let street = Street {
            id: new_row.id,
            name: clone_opt_string(&new_row.name),
            verified: new_row.verified,
        };
        let ghost new_rowv = new_row@;
        self.streets[idx] = new_row;
        proof {
            assert(self@.streets =~= old(self)@.streets.update(idx as int, new_rowv));
            assert(self@ =~~= old(self)@.with_streets(
                old(self)@.streets.update(idx as int, new_rowv),
            ));
            assert forall|k: int| #![trigger self@.streets[k]] 0 <= k < old(self)@.streets.len()
                implies self@.streets[k].id == old(self)@.streets[k].id && self@.streets[k].area_id
                == old(self)@.streets[k].area_id by {}
            lemma_street_refs_kept(old(self)@.streets, self@.streets);
            assert forall|i: int, j: int| 0 <= i < j < self@.streets.len()
                implies self@.streets[i].id < self@.streets[j].id by {
                assert(old(self)@.streets[i].id < old(self)@.streets[j].id);
            }
            assert(streets_ok(self@.areas, self@.streets));
            lemma_addresses_ok_new_refs(
                self@.areas,
                self@.areas,
                old(self)@.streets,
                self@.streets,
                self@.addresses,
            );
            lemma_polylines_ok_new_streets(
                old(self)@.streets,
                self@.streets,
                self@.street_polylines,
            );
            assert(self@.wf());
            assert(old(self)@.streets[idx as int].id == street_id);
            assert(street@ == street_of_row(self@.streets[idx as int]));
        }
        Ok(street)
    }
}

/// Copy a vector of points.
#[verifier::loop_isolation(false)]
fn copy_points(v: &Vec<Point>) -> (r: Vec<Point>)
    ensures
        r@ == v@,
{
    let mut out: Vec<Point> = Vec::new();
    let mut idx: usize = 0;
    while idx < v.len()
        invariant
            idx <= v.len(),
            out@ == v@.take(idx as int),
        decreases v.len() - idx,
    {
        out.push(v[idx]);
        proof {
            assert(out@ =~= v@.take(idx as int + 1));
        }
        idx += 1;
    }
    proof {
        assert(v@.take(v@.len() as int) =~= v@);
    }
    out
}

/// Copy an optional string.
fn clone_opt_string(o: &Option<String>) -> (r: Option<String>)
    ensures
        r.deep_view() == o.deep_view(),
{
    match o {
        Some(s) => Some(s.clone()),
        None => None,
    }
}


/// Owners never repeat among vertex-list rows.
pub open spec fn poly_owners_distinct(rows: Seq<PolyRowV>) -> bool {
    forall|i: int, j: int|
        0 <= i < j < rows.len() ==> #[trigger] rows[i].owner_id != #[trigger] rows[j].owner_id
}

/// Removing one row keeps owners distinct, erases that owner's entry,
/// and answers every other lookup as before.
pub proof fn lemma_poly_remove(rows: Seq<PolyRowV>, idx: int, owner: i64)
    requires
        poly_owners_distinct(rows),
        0 <= idx < rows.len(),
        rows[idx].owner_id == owner,
    ensures
        poly_owners_distinct(rows.remove(idx)),
        poly_lookup(rows.remove(idx), owner) is None,
        forall|o: i64|
            o != owner ==> #[trigger] poly_lookup(rows.remove(idx), o) == poly_lookup(rows, o),
        forall|k: int|
            0 <= k < rows.remove(idx).len() ==> #[trigger] rows.remove(idx)[k] == (if k < idx {
                rows[k]
            } else {
                rows[k + 1]
            }),
{
    let out = rows.remove(idx);
    assert forall|k: int|
        0 <= k < out.len() implies #[trigger] out[k] == (if k < idx {
        rows[k]
    } else {
        rows[k + 1]
    }) by {}
    assert forall|k: int| 0 <= k < out.len() implies #[trigger] out[k].owner_id != owner by {
        if k < idx {
            assert(rows[k].owner_id != rows[idx].owner_id);
        } else {
            assert(rows[idx].owner_id != rows[k + 1].owner_id);
        }
    }
    lemma_poly_lookup_unique(out, owner);
    assert forall|o: i64| o != owner implies #[trigger] poly_lookup(out, o) == poly_lookup(
        rows,
        o,
    ) by {
        lemma_poly_lookup_unique(out, o);
        lemma_poly_lookup_unique(rows, o);
        if exists|i: int| 0 <= i < rows.len() && #[trigger] rows[i].owner_id == o {
            let i = choose|i: int| 0 <= i < rows.len() && #[trigger] rows[i].owner_id == o;
            if i < idx {
                assert(out[i] == rows[i]);
                assert(poly_lookup(out, o) == Some(rows[i].points));
            } else {
                assert(i != idx);
                assert(out[i - 1] == rows[i]);
                assert(poly_lookup(out, o) == Some(rows[i].points));
            }
            assert(poly_lookup(rows, o) == Some(rows[i].points));
        } else {
            assert forall|k: int| 0 <= k < out.len() implies #[trigger] out[k].owner_id != o by {
                if k < idx {
                    assert(rows[k].owner_id != o);
                } else {
                    assert(rows[k + 1].owner_id != o);
                }
            }
            assert(poly_lookup(out, o) is None);
            assert forall|k: int| 0 <= k < rows.len() implies #[trigger] rows[k].owner_id != o by {}
            assert(poly_lookup(rows, o) is None);
        }
    }
}

/// Appending a row for a fresh owner keeps owners distinct, stores that
/// owner's entry, and answers every other lookup as before.
pub proof fn lemma_poly_push(rows: Seq<PolyRowV>, row: PolyRowV)
    requires
        poly_owners_distinct(rows),
        forall|k: int| 0 <= k < rows.len() ==> #[trigger] rows[k].owner_id != row.owner_id,
    ensures
        poly_owners_distinct(rows.push(row)),
        poly_lookup(rows.push(row), row.owner_id) == Some(row.points),
        forall|o: i64|
            o != row.owner_id ==> #[trigger] poly_lookup(rows.push(row), o) == poly_lookup(rows, o),
{
    let out = rows.push(row);
    lemma_poly_lookup_unique(out, row.owner_id);
    assert(out[rows.len() as int].owner_id == row.owner_id);
    assert(poly_lookup(out, row.owner_id) == Some(row.points));
    assert forall|o: i64| o != row.owner_id implies #[trigger] poly_lookup(out, o) == poly_lookup(
        rows,
        o,
    ) by {
        lemma_poly_lookup_unique(out, o);
        lemma_poly_lookup_unique(rows, o);
        if exists|i: int| 0 <= i < rows.len() && #[trigger] rows[i].owner_id == o {
            let i = choose|i: int| 0 <= i < rows.len() && #[trigger] rows[i].owner_id == o;
            assert(out[i] == rows[i]);
            assert(poly_lookup(out, o) == Some(rows[i].points));
            assert(poly_lookup(rows, o) == Some(rows[i].points));
        } else {
            assert forall|k: int| 0 <= k < out.len() implies #[trigger] out[k].owner_id != o by {
                if k < rows.len() {
                    assert(rows[k].owner_id != o);
                }
            }
            assert(poly_lookup(out, o) is None);
            assert(poly_lookup(rows, o) is None);
        }
    }
}

/// The table position of the row owned by `owner`, if one exists.
#[verifier::loop_isolation(false)]
fn poly_idx(rows: &Vec<PolyRow>, owner: i64) -> (r: Option<usize>)
    ensures
        match r {
            Some(i) => 0 <= i < rows.deep_view().len() && rows.deep_view()[i as int].owner_id
                == owner,
            None => forall|k: int|
                0 <= k < rows.deep_view().len() ==> #[trigger] rows.deep_view()[k].owner_id
                    != owner,
        },
{
    let mut idx: usize = 0;
    while idx < rows.len()
        invariant
            idx <= rows.len(),
            forall|k: int| 0 <= k < idx ==> #[trigger] rows.deep_view()[k].owner_id != owner,
        decreases rows.len() - idx,
    {
        if rows[idx].owner_id == owner {
            proof {
                assert(rows.deep_view()[idx as int].owner_id == owner);
            }
            return Some(idx);
        }
        idx += 1;
    }
    None
}

/// Every row of `sub` is a row of `full`.
pub open spec fn poly_rows_among(sub: Seq<PolyRowV>, full: Seq<PolyRowV>) -> bool {
    forall|k: int|
        0 <= k < sub.len() ==> exists|j: int| 0 <= j < full.len() && #[trigger] sub[k] == full[j]
}

/// Remove the row owned by `owner`, if any.
fn poly_remove(rows: &mut Vec<PolyRow>, owner: i64)
    requires
        poly_owners_distinct(old(rows).deep_view()),
    ensures
        poly_owners_distinct(final(rows).deep_view()),
        poly_lookup(final(rows).deep_view(), owner) is None,
        forall|o: i64|
            o != owner ==> #[trigger] poly_lookup(final(rows).deep_view(), o) == poly_lookup(old(rows).deep_view(), o),
        poly_rows_among(final(rows).deep_view(), old(rows).deep_view()),
{
    let r = poly_idx(rows, owner);
    match r {
        Some(idx) => {
            rows.remove(idx);
            proof {
                assert(rows.deep_view() =~= old(rows).deep_view().remove(idx as int));
                lemma_poly_remove(old(rows).deep_view(), idx as int, owner);
                assert forall|k: int| 0 <= k < rows.deep_view().len() implies exists|j: int|
                    0 <= j < old(rows).deep_view().len() && #[trigger] rows.deep_view()[k]
                    == old(rows).deep_view()[j] by {
                    if k < idx {
                        assert(rows.deep_view()[k] == old(rows).deep_view()[k]);
                    } else {
                        assert(rows.deep_view()[k] == old(rows).deep_view()[k + 1]);
                    }
                }
            }
        },
        None => {
            proof {
                lemma_poly_lookup_unique(rows.deep_view(), owner);
                assert forall|k: int| 0 <= k < rows.deep_view().len() implies exists|j: int|
                    0 <= j < old(rows).deep_view().len() && #[trigger] rows.deep_view()[k]
                    == old(rows).deep_view()[j] by {
                    assert(rows.deep_view()[k] == old(rows).deep_view()[k]);
                }
            }
        },
    }
}

/// Replace the row owned by `owner` with the given non-empty vertex
/// list, inserting one when none exists.
fn poly_set(rows: &mut Vec<PolyRow>, owner: i64, points: &Vec<Point>)
    requires
        poly_owners_distinct(old(rows).deep_view()),
        points@.len() >= 1,
    ensures
        poly_owners_distinct(final(rows).deep_view()),
        poly_lookup(final(rows).deep_view(), owner) == Some(points@),
        forall|o: i64|
            o != owner ==> #[trigger] poly_lookup(final(rows).deep_view(), o) == poly_lookup(old(rows).deep_view(), o),
        forall|k: int|
            0 <= k < final(rows).deep_view().len() ==> (exists|j: int|
                0 <= j < old(rows).deep_view().len() && #[trigger] final(rows).deep_view()[k]
                == old(rows).deep_view()[j]) || final(rows).deep_view()[k] == (PolyRowV {
                owner_id: owner,
                points: points@,
            }),
{
    poly_remove(rows, owner);
    let ghost mid = rows.deep_view();
    let row = PolyRow { owner_id: owner, points: copy_points(points) };
    let ghost rowv = row@;
    proof {
        lemma_poly_lookup_unique(mid, owner);
        assert forall|k: int| 0 <= k < mid.len() implies #[trigger] mid[k].owner_id != owner by {
            if mid[k].owner_id == owner {
                assert(poly_lookup(mid, owner) == Some(mid[k].points));
            }
        }
    }
    rows.push(row);
    proof {
        assert(rows.deep_view() =~= mid.push(rowv));
        lemma_poly_push(mid, rowv);
    }
}


impl WorkingStore {
    /// Replace the drawn polyline of the given street by the given
    /// ordered vertex list, atomically: afterwards exactly the new list
    /// is stored, and no other street's polyline has moved.  An empty
    /// list removes the polyline.  Fails with `ForeignKey` when a
    /// non-empty list is drawn for a street that does not exist in the
    /// given area.
    pub fn draw_street_polyline(&mut self, area_id: i64, street_id: i64, points: &Vec<Point>) -> (r:
        Result<(), StoreError>)
        requires
            old(self)@.wf(),
        ensures
            final(self)@.wf(),
            match r {
                Ok(_) => {
                    &&& (points@.len() == 0 || old(self)@.street_in_area(area_id, street_id))
                    &&& poly_lookup(final(self)@.street_polylines, street_id) == (if points@.len()
                        == 0 {
                        None
                    } else {
                        Some(points@)
                    })
                    &&& (forall|o: i64|
                        o != street_id ==> #[trigger] poly_lookup(
                            final(self)@.street_polylines,
                            o,
                        ) == poly_lookup(old(self)@.street_polylines, o))
                    &&& final(self)@ == old(self)@.with_street_polylines(
                        final(self)@.street_polylines,
                    )
                },
                Err(e) => {
                    &&& e == StoreError::ForeignKey
                    &&& points@.len() > 0
                    &&& !old(self)@.street_in_area(area_id, street_id)
                    &&& final(self)@ == old(self)@
                },
            },
    {
        if points.len() == 0 {
            poly_remove(&mut self.street_polylines, street_id);
            proof {
                assert(self@ =~~= old(self)@.with_street_polylines(self@.street_polylines));
                assert forall|i: int|
                    0 <= i < self@.street_polylines.len() implies {
                    let p = #[trigger] self@.street_polylines[i];
                    p.points.len() >= 1 && has_street_in(self@.streets, p.owner_id)
                } by {
                    let j = choose|j: int|
                        0 <= j < old(self)@.street_polylines.len() && self@.street_polylines[i]
                            == old(self)@.street_polylines[j];
                    assert(old(self)@.street_polylines[j].points.len() >= 1 && has_street_in(
                        old(self)@.streets,
                        old(self)@.street_polylines[j].owner_id,
                    ));
                }
                assert(self@.wf());
            }
            return Ok(());
        }
        if self.street_idx(area_id, street_id).is_none() {
            return Err(StoreError::ForeignKey);
        }
        poly_set(&mut self.street_polylines, street_id, points);
        proof {
            assert(self@ =~~= old(self)@.with_street_polylines(self@.street_polylines));
            assert forall|i: int|
                0 <= i < self@.street_polylines.len() implies {
                let p = #[trigger] self@.street_polylines[i];
                p.points.len() >= 1 && has_street_in(self@.streets, p.owner_id)
            } by {
                if self@.street_polylines[i] == (PolyRowV {
                    owner_id: street_id,
                    points: points@,
                }) {
                } else {
                    let j = choose|j: int|
                        0 <= j < old(self)@.street_polylines.len() && self@.street_polylines[i]
                            == old(self)@.street_polylines[j];
                    assert(old(self)@.street_polylines[j].points.len() >= 1 && has_street_in(
                        old(self)@.streets,
                        old(self)@.street_polylines[j].owner_id,
                    ));
                }
            }
            assert(self@.wf());
        }
        Ok(())
    }

    /// The drawn polyline of the given street, or nothing when none is
    /// stored.
    pub fn get_street_polyline(&self, street_id: i64) -> (r: Option<crate::model::StreetPolyline>)
        requires
            self@.wf(),
        ensures
            match r {
                Some(p) => poly_lookup(self@.street_polylines, street_id) == Some(p.points@),
                None => poly_lookup(self@.street_polylines, street_id) is None,
            },
    {
        proof {
            lemma_poly_lookup_unique(self@.street_polylines, street_id);
        }
        match poly_idx(&self.street_polylines, street_id) {
            Some(idx) => {
                let p = crate::model::StreetPolyline {
                    points: copy_points(&self.street_polylines[idx].points),
                };
                proof {
                    assert(poly_lookup(self@.street_polylines, street_id) == Some(
                        self@.street_polylines[idx as int].points,
                    ));
                }
                Some(p)
            },
            None => None,
        }
    }

    /// Remove the drawn polyline of the given street, if any.
    pub fn remove_street_polyline(&mut self, street_id: i64)
        requires
            old(self)@.wf(),
        ensures
            final(self)@.wf(),
            poly_lookup(final(self)@.street_polylines, street_id) is None,
            forall|o: i64|
                o != street_id ==> #[trigger] poly_lookup(final(self)@.street_polylines, o)
                    == poly_lookup(old(self)@.street_polylines, o),
            final(self)@ == old(self)@.with_street_polylines(final(self)@.street_polylines),
    {
        poly_remove(&mut self.street_polylines, street_id);
        proof {
            assert(self@ =~~= old(self)@.with_street_polylines(self@.street_polylines));
            assert forall|i: int|
                0 <= i < self@.street_polylines.len() implies {
                let p = #[trigger] self@.street_polylines[i];
                p.points.len() >= 1 && has_street_in(self@.streets, p.owner_id)
            } by {
                let j = choose|j: int|
                    0 <= j < old(self)@.street_polylines.len() && self@.street_polylines[i] == old(
                        self,
                    )@.street_polylines[j];
                assert(old(self)@.street_polylines[j].points.len() >= 1 && has_street_in(
                    old(self)@.streets,
                    old(self)@.street_polylines[j].owner_id,
                ));
            }
            assert(self@.wf());
        }
    }

    /// Replace the boundary polygon of the given team by the given
    /// ordered vertex list, atomically.  An empty list removes the
    /// boundary.  Fails with `ForeignKey` when a non-empty boundary is
    /// set for a team that does not exist in the given area.  Returns
    /// the boundary as stored.
    pub fn set_team_bounds(&mut self, area_id: i64, team_id: i64, bounds: &Vec<Point>) -> (r:
        Result<crate::model::TeamBounds, StoreError>)
        requires
            old(self)@.wf(),
        ensures
            final(self)@.wf(),
            match r {
                Ok(tb) => {
                    &&& tb.boundary@ == bounds@
                    &&& (bounds@.len() == 0 || old(self)@.team_in_area(area_id, team_id))
                    &&& poly_lookup(final(self)@.team_bounds, team_id) == (if bounds@.len() == 0 {
                        None
                    } else {
                        Some(bounds@)
                    })
                    &&& (forall|o: i64|
                        o != team_id ==> #[trigger] poly_lookup(final(self)@.team_bounds, o)
                            == poly_lookup(old(self)@.team_bounds, o))
                    &&& final(self)@ == old(self)@.with_team_bounds(final(self)@.team_bounds)
                },
                Err(e) => {
                    &&& e == StoreError::ForeignKey
                    &&& bounds@.len() > 0
                    &&& !old(self)@.team_in_area(area_id, team_id)
                    &&& final(self)@ == old(self)@
                },
            },
    {
        if bounds.len() == 0 {
            poly_remove(&mut self.team_bounds, team_id);
            proof {
                assert(self@ =~~= old(self)@.with_team_bounds(self@.team_bounds));
                assert forall|i: int|
                    0 <= i < self@.team_bounds.len() implies {
                    let p = #[trigger] self@.team_bounds[i];
                    p.points.len() >= 1 && has_team_in(self@.teams, p.owner_id)
                } by {
                    let j = choose|j: int|
                        0 <= j < old(self)@.team_bounds.len() && self@.team_bounds[i] == old(
                            self,
                        )@.team_bounds[j];
                    assert(old(self)@.team_bounds[j].points.len() >= 1 && has_team_in(
                        old(self)@.teams,
                        old(self)@.team_bounds[j].owner_id,
                    ));
                }
                assert(self@.wf());
            }
            return Ok(crate::model::TeamBounds { boundary: copy_points(bounds) });
        }
        if !self.team_exists(area_id, team_id) {
            return Err(StoreError::ForeignKey);
        }
        poly_set(&mut self.team_bounds, team_id, bounds);
        proof {
            assert(self@ =~~= old(self)@.with_team_bounds(self@.team_bounds));
            assert forall|i: int|
                0 <= i < self@.team_bounds.len() implies {
                let p = #[trigger] self@.team_bounds[i];
                p.points.len() >= 1 && has_team_in(self@.teams, p.owner_id)
            } by {
                if self@.team_bounds[i] == (PolyRowV { owner_id: team_id, points: bounds@ }) {
                } else {
                    let j = choose|j: int|
                        0 <= j < old(self)@.team_bounds.len() && self@.team_bounds[i] == old(
                            self,
                        )@.team_bounds[j];
                    assert(old(self)@.team_bounds[j].points.len() >= 1 && has_team_in(
                        old(self)@.teams,
                        old(self)@.team_bounds[j].owner_id,
                    ));
                }
            }
            assert(self@.wf());
        }
        Ok(crate::model::TeamBounds { boundary: copy_points(bounds) })
    }

    /// The boundary polygon of the given team, or nothing when none is
    /// stored.
    pub fn get_team_bounds(&self, team_id: i64) -> (r: Option<crate::model::TeamBounds>)
        requires
            self@.wf(),
        ensures
            match r {
                Some(tb) => poly_lookup(self@.team_bounds, team_id) == Some(tb.boundary@),
                None => poly_lookup(self@.team_bounds, team_id) is None,
            },
    {
        proof {
            lemma_poly_lookup_unique(self@.team_bounds, team_id);
        }
        match poly_idx(&self.team_bounds, team_id) {
            Some(idx) => {
                let tb = crate::model::TeamBounds {
                    boundary: copy_points(&self.team_bounds[idx].points),
                };
                proof {
                    assert(poly_lookup(self@.team_bounds, team_id) == Some(
                        self@.team_bounds[idx as int].points,
                    ));
                }
                Some(tb)
            },
            None => None,
        }
    }

    /// Remove the boundary polygon of the given team, if any.
    pub fn remove_team_bounds(&mut self, team_id: i64)
        requires
            old(self)@.wf(),
        ensures
            final(self)@.wf(),
            poly_lookup(final(self)@.team_bounds, team_id) is None,
            forall|o: i64|
                o != team_id ==> #[trigger] poly_lookup(final(self)@.team_bounds, o) == poly_lookup(
                    old(self)@.team_bounds,
                    o,
                ),
            final(self)@ == old(self)@.with_team_bounds(final(self)@.team_bounds),
    {
        poly_remove(&mut self.team_bounds, team_id);
        proof {
            assert(self@ =~~= old(self)@.with_team_bounds(self@.team_bounds));
            assert forall|i: int|
                0 <= i < self@.team_bounds.len() implies {
                let p = #[trigger] self@.team_bounds[i];
                p.points.len() >= 1 && has_team_in(self@.teams, p.owner_id)
            } by {
                let j = choose|j: int|
                    0 <= j < old(self)@.team_bounds.len() && self@.team_bounds[i] == old(
                        self,
                    )@.team_bounds[j];
                assert(old(self)@.team_bounds[j].points.len() >= 1 && has_team_in(
                    old(self)@.teams,
                    old(self)@.team_bounds[j].owner_id,
                ));
            }
            assert(self@.wf());
        }
    }

    /// Whether a team with the given id exists in the given area.
    #[verifier::loop_isolation(false)]
    fn team_exists(&self, area_id: i64, team_id: i64) -> (r: bool)
        ensures
            r == self@.team_in_area(area_id, team_id),
    {
        let mut idx: usize = 0;
        while idx < self.teams.len()
            invariant
                idx <= self.teams.len(),
                forall|i: int|
                    0 <= i < idx ==> !(#[trigger] self@.teams[i].id == team_id
                        && self@.teams[i].area_id == area_id),
            decreases self.teams.len() - idx,
        {
            let row = &self.teams[idx];
            if row.id == team_id && row.area_id == area_id {
                proof {
                    assert(self@.teams[idx as int].id == team_id && self@.teams[idx as int].area_id
                        == area_id);
                }
                return true;
            }
            idx += 1;
        }
        false
    }
}


/// The addresses scoped to one area, in table order (ascending id).
pub open spec fn addresses_of_area(addresses: Seq<AddressV>, area_id: i64) -> Seq<AddressV>
    decreases addresses.len(),
{
    if addresses.len() == 0 {
        Seq::empty()
    } else {
        let rest = addresses_of_area(addresses.drop_last(), area_id);
        if addresses.last().area_id == area_id {
            rest.push(addresses.last())
        } else {
            rest
        }
    }
}

/// The addresses scoped to one area and assigned to one street, in
/// table order (ascending id).
pub open spec fn addresses_of_street(
    addresses: Seq<AddressV>,
    area_id: i64,
    street_id: i64,
) -> Seq<AddressV>
    decreases addresses.len(),
{
    if addresses.len() == 0 {
        Seq::empty()
    } else {
        let rest = addresses_of_street(addresses.drop_last(), area_id, street_id);
        if addresses.last().area_id == area_id && addresses.last().assigned_street_id == Some(
            street_id,
        ) {
            rest.push(addresses.last())
        } else {
            rest
        }
    }
}

/// Copy an address value.
fn clone_address(a: &Address) -> (r: Address)
    ensures
        r@ == a@,
{
    Address {
        id: a.id,
        area_id: a.area_id,
        house_number: a.house_number.clone(),
        position: a.position,
        confidence_milli: a.confidence_milli,
        verified: a.verified,
        estimated_flats: a.estimated_flats,
        circle_radius: a.circle_radius,
        assigned_street_id: a.assigned_street_id,
    }
}

impl WorkingStore {
    /// The table position of the address with the given id in the given
    /// area, if one exists.
    #[verifier::loop_isolation(false)]
    fn address_idx(&self, area_id: i64, address_id: i64) -> (r: Option<usize>)
        ensures
            match r {
                Some(i) => 0 <= i < self@.addresses.len() && self@.addresses[i as int].id
                    == address_id && self@.addresses[i as int].area_id == area_id,
                None => !self@.address_in_area(area_id, address_id),
            },
    {
        let mut idx: usize = 0;
        while idx < self.addresses.len()
            invariant
                idx <= self.addresses.len(),
                forall|i: int|
                    0 <= i < idx ==> !(#[trigger] self@.addresses[i].id == address_id
                        && self@.addresses[i].area_id == area_id),
            decreases self.addresses.len() - idx,
        {
            let row = &self.addresses[idx];
            if row.id == address_id && row.area_id == area_id {
                return Some(idx);
            }
            idx += 1;
        }
        None
    }

    /// The addresses of the given area, listed by ascending id.
    #[verifier::loop_isolation(false)]
    pub fn get_addresses(&self, area_id: i64) -> (r: Vec<Address>)
        requires
            self@.wf(),
        ensures
            r.deep_view() == addresses_of_area(self@.addresses, area_id),
    {
        let mut out: Vec<Address> = Vec::new();
        let mut idx: usize = 0;
        proof {
            assert(self@.addresses.take(0) =~= Seq::<AddressV>::empty());
        }
        while idx < self.addresses.len()
            invariant
                idx <= self.addresses.len(),
                out.deep_view() == addresses_of_area(self@.addresses.take(idx as int), area_id),
            decreases self.addresses.len() - idx,
        {
            let ghost pre = out.deep_view();
            let row = &self.addresses[idx];
            if row.area_id == area_id {
                let a = clone_address(row);
                let ghost av = a@;
                out.push(a);
                proof {
                    assert(out.deep_view() =~= pre.push(av));
                    assert(av == self@.addresses[idx as int]);
                }
            }
            proof {
                assert(self@.addresses.take(idx as int + 1).drop_last() =~= self@.addresses.take(
                    idx as int,
                ));
                assert(self@.addresses.take(idx as int + 1).last() == self@.addresses[idx as int]);
                assert(out.deep_view() == addresses_of_area(
                    self@.addresses.take(idx as int + 1),
                    area_id,
                ));
            }
            idx += 1;
        }
        proof {
            assert(self@.addresses.take(self@.addresses.len() as int) =~= self@.addresses);
        }
        out
    }

    /// The address with the given id in the given area, or nothing when
    /// no such address exists there.
    pub fn get_address_by_id(&self, area_id: i64, address_id: i64) -> (r: Option<Address>)
        requires
            self@.wf(),
        ensures
            match r {
                Some(a) => exists|i: int|
                    0 <= i < self@.addresses.len() && #[trigger] self@.addresses[i].id == address_id
                        && self@.addresses[i].area_id == area_id && a@ == self@.addresses[i],
                None => !self@.address_in_area(area_id, address_id),
            },
    {
        match self.address_idx(area_id, address_id) {
            Some(idx) => {
                let a = clone_address(&self.addresses[idx]);
                proof {
                    assert(self@.addresses[idx as int].id == address_id && a@
                        == self@.addresses[idx as int]);
                }
                Some(a)
            },
            None => None,
        }
    }

    /// The addresses of the given area assigned to the given street,
    /// listed by ascending id.
    #[verifier::loop_isolation(false)]
    pub fn get_addresses_by_street(&self, area_id: i64, street_id: i64) -> (r: Vec<Address>)
        requires
            self@.wf(),
        ensures
            r.deep_view() == addresses_of_street(self@.addresses, area_id, street_id),
    {
        let mut out: Vec<Address> = Vec::new();
        let mut idx: usize = 0;
        proof {
            assert(self@.addresses.take(0) =~= Seq::<AddressV>::empty());
        }
        while idx < self.addresses.len()
            invariant
                idx <= self.addresses.len(),
                out.deep_view() == addresses_of_street(
                    self@.addresses.take(idx as int),
                    area_id,
                    street_id,
                ),
            decreases self.addresses.len() - idx,
        {
            let ghost pre = out.deep_view();
            let row = &self.addresses[idx];
            let assigned_here = match row.assigned_street_id {
                Some(sid) => sid == street_id,
                None => false,
            };
            if row.area_id == area_id && assigned_here {
                let a = clone_address(row);
                let ghost av = a@;
                out.push(a);
                proof {
                    assert(out.deep_view() =~= pre.push(av));
                    assert(av == self@.addresses[idx as int]);
                }
            }
            proof {
                assert(self@.addresses.take(idx as int + 1).drop_last() =~= self@.addresses.take(
                    idx as int,
                ));
                assert(self@.addresses.take(idx as int + 1).last() == self@.addresses[idx as int]);
                assert(out.deep_view() == addresses_of_street(
                    self@.addresses.take(idx as int + 1),
                    area_id,
                    street_id,
                ));
            }
            idx += 1;
        }
        proof {
            assert(self@.addresses.take(self@.addresses.len() as int) =~= self@.addresses);
        }
        out
    }

    /// Insert a new address row scoped to the given area.  The new
    /// address starts unverified and receives the next free id.  Fails
    /// with `ForeignKey` when the area does not exist or a street is
    /// assigned that does not exist in that area.
    pub fn add_address(&mut self, area_id: i64, new: &crate::model::NewAddress) -> (r: Result<
        Address,
        StoreError,
    >)
        requires
            old(self)@.wf(),
        ensures
            final(self)@.wf(),
            match r {
                Ok(a) => {
                    &&& old(self)@.has_area(area_id)
                    &&& (new.assigned_street_id matches Some(sid) ==> old(self)@.street_in_area(
                        area_id,
                        sid,
                    ))
                    &&& a.id == old(self)@.next_address_id()
                    &&& a@ == (AddressV {
                        id: a.id,
                        area_id,
                        house_number: new.house_number@,
                        position: new.position,
                        confidence_milli: new.confidence_milli,
                        verified: false,
                        estimated_flats: new.estimated_flats,
                        circle_radius: new.circle_radius,
                        assigned_street_id: new.assigned_street_id,
                    })
                    &&& final(self)@ =~~= old(self)@.with_addresses(
                        old(self)@.addresses.push(a@),
                    )
                },
                Err(e) => {
                    &&& final(self)@ == old(self)@
                    &&& (e == StoreError::ForeignKey || e == StoreError::Full)
                    &&& (e == StoreError::ForeignKey <==> !(old(self)@.has_area(area_id) && (
                    new.assigned_street_id matches Some(sid) ==> old(self)@.street_in_area(
                        area_id,
                        sid,
                    ))))
                    &&& (e == StoreError::Full ==> old(self)@.next_address_id() > i64::MAX)
                },
            },
    {
        if !self.area_exists(area_id) {
            return Err(StoreError::ForeignKey);
        }
        match new.assigned_street_id {
            Some(sid) => {
                if self.street_idx(area_id, sid).is_none() {
                    return Err(StoreError::ForeignKey);
                }
            },
            None => {},
        }
        let id = if self.addresses.len() == 0 {
            1
        } else {
            let last = self.addresses[self.addresses.len() - 1].id;
            if last == i64::MAX {
                return Err(StoreError::Full);
            }
            last + 1
        };
        let row = Address {
            id,
            area_id,
            house_number: new.house_number.clone(),
            position: new.position,
            confidence_milli: new.confidence_milli,
            verified: false,
            estimated_flats: new.estimated_flats,
            circle_radius: new.circle_radius,
            assigned_street_id: new.assigned_street_id,
        };
        let result = clone_address(&row);
        let ghost rowv = row@;
        proof {
            assert forall|i: int| 0 <= i < self@.addresses.len()
                implies #[trigger] self@.addresses[i].id < id by {
                if i < self@.addresses.len() - 1 {
                    assert(self@.addresses[i].id < self@.addresses[self@.addresses.len() - 1].id);
                }
            }
        }
        self.addresses.push(row);
        proof {
            assert(self@.addresses =~= old(self)@.addresses.push(rowv));
            assert(self@ =~~= old(self)@.with_addresses(old(self)@.addresses.push(rowv)));
            lemma_address_refs_kept(old(self)@.addresses, self@.addresses);
            assert(addresses_ok(self@.areas, self@.streets, self@.addresses));
            lemma_assignments_ok_new_refs(
                self@.teams,
                self@.teams,
                old(self)@.addresses,
                self@.addresses,
                self@.assignments,
            );
            assert(self@.wf());
        }
        Ok(result)
    }

    /// Apply a partial update to the address with the given id in the
    /// given area.  Plain fields set to `None` keep their value; the
    /// nullable fields follow their three-way descriptor.  Fails with
    /// `NotFound` when no such address exists there, and with
    /// `ForeignKey` when a street is assigned that does not exist in
    /// that area.
    pub fn update_address(
        &mut self,
        area_id: i64,
        address_id: i64,
        update: &crate::model::AddressUpdate,
    ) -> (r: Result<Address, StoreError>)
        requires
            old(self)@.wf(),
        ensures
            final(self)@.wf(),
            match r {
                Ok(a) => exists|i: int|
                    {
                        &&& 0 <= i < old(self)@.addresses.len()
                        &&& #[trigger] old(self)@.addresses[i].id == address_id
                        &&& old(self)@.addresses[i].area_id == area_id
                        &&& a@ == final(self)@.addresses[i]
                        &&& final(self)@ == old(self)@.with_addresses(
                            old(self)@.addresses.update(
                                i,
                                AddressV {
                                    id: address_id,
                                    area_id,
                                    house_number: match update.house_number.deep_view() {
                                        Some(h) => h,
                                        None => old(self)@.addresses[i].house_number,
                                    },
                                    position: match update.position {
                                        Some(p) => p,
                                        None => old(self)@.addresses[i].position,
                                    },
                                    confidence_milli: match update.confidence_milli {
                                        Some(c) => c,
                                        None => old(self)@.addresses[i].confidence_milli,
                                    },
                                    verified: match update.verified {
                                        Some(v) => v,
                                        None => old(self)@.addresses[i].verified,
                                    },
                                    estimated_flats: update.estimated_flats.spec_apply(
                                        old(self)@.addresses[i].estimated_flats,
                                    ),
                                    circle_radius: match update.circle_radius {
                                        Some(c) => c,
                                        None => old(self)@.addresses[i].circle_radius,
                                    },
                                    assigned_street_id: update.assigned_street.spec_apply(
                                        old(self)@.addresses[i].assigned_street_id,
                                    ),
                                },
                            ),
                        )
                    },
                Err(e) => {
                    &&& final(self)@ == old(self)@
                    &&& (e == StoreError::NotFound || e == StoreError::ForeignKey)
                    &&& (e == StoreError::NotFound <==> !old(self)@.address_in_area(
                        area_id,
                        address_id,
                    ))
                    &&& (e == StoreError::ForeignKey ==> (update.assigned_street matches
                    crate::model::FieldUpdate::Assign(sid) && !old(self)@.street_in_area(
                        area_id,
                        sid,
                    )))
                },
            },
    {
        let idx = match self.address_idx(area_id, address_id) {
            Some(idx) => idx,
            None => {
                return Err(StoreError::NotFound);
            },
        };
        match update.assigned_street {
            crate::model::FieldUpdate::Assign(sid) => {
                if self.street_idx(area_id, sid).is_none() {
                    return Err(StoreError::ForeignKey);
                }
            },
            _ => {},
        }
        let row = &self.addresses[idx];
        let new_row = Address {
            id: row.id,
            area_id: row.area_id,
            house_number: match &update.house_number {
                Some(h) => h.clone(),
                None => row.house_number.clone(),
            },
            position: match update.position {
                Some(p) => p,
                None => row.position,
            },
            confidence_milli: match update.confidence_milli {
                Some(c) => c,
                None => row.confidence_milli,
            },
            verified: match update.verified {
                Some(v) => v,
                None => row.verified,
            },
            estimated_flats: match update.estimated_flats {
                crate::model::FieldUpdate::Keep => row.estimated_flats,
                crate::model::FieldUpdate::Clear => None,
                crate::model::FieldUpdate::Assign(n) => Some(n),
            },
            circle_radius: match update.circle_radius {
                Some(c) => c,
                None => row.circle_radius,
            },
            assigned_street_id: match update.assigned_street {
                crate::model::FieldUpdate::Keep => row.assigned_street_id,
                crate::model::FieldUpdate::Clear => None,
                crate::model::FieldUpdate::Assign(sid) => Some(sid),
            },
        };
        let result = clone_address(&new_row);
        let ghost new_rowv = new_row@;
        self.addresses[idx] = new_row;
        proof {
            assert(self@.addresses =~= old(self)@.addresses.update(idx as int, new_rowv));
            assert(self@ =~~= old(self)@.with_addresses(
                old(self)@.addresses.update(idx as int, new_rowv),
            ));
            assert forall|k: int| #![trigger self@.addresses[k]] 0 <= k < old(self)@.addresses.len()
                implies self@.addresses[k].id == old(self)@.addresses[k].id
                && self@.addresses[k].area_id == old(self)@.addresses[k].area_id by {}
            lemma_address_refs_kept(old(self)@.addresses, self@.addresses);
            assert forall|i: int, j: int| 0 <= i < j < self@.addresses.len()
                implies self@.addresses[i].id < self@.addresses[j].id by {
                assert(old(self)@.addresses[i].id < old(self)@.addresses[j].id);
            }
            assert forall|i: int|
                0 <= i < self@.addresses.len() implies {
                let a = #[trigger] self@.addresses[i];
                &&& a.id >= 1
                &&& has_area_in(self@.areas, a.area_id)
                &&& (a.assigned_street_id matches Some(sid) ==> street_in(
                    self@.streets,
                    a.area_id,
                    sid,
                ))
            } by {
                if i != idx {
                    assert(self@.addresses[i] == old(self)@.addresses[i]);
                }
                assert(old(self)@.addresses[i].id >= 1 && has_area_in(
                    self@.areas,
                    old(self)@.addresses[i].area_id,
                ));
                if self@.addresses[i].assigned_street_id is Some {
                    let sid = self@.addresses[i].assigned_street_id->0;
                    if i == idx {
                        match update.assigned_street {
                            crate::model::FieldUpdate::Keep => {
                                assert(old(self)@.addresses[i].assigned_street_id == Some(sid));
                            },
                            crate::model::FieldUpdate::Clear => {
                                assert(false);
                            },
                            crate::model::FieldUpdate::Assign(s2) => {
                                assert(sid == s2);
                            },
                        }
                    } else {
                        assert(old(self)@.addresses[i].assigned_street_id == Some(sid));
                    }
                    assert(street_in(self@.streets, self@.addresses[i].area_id, sid));
                }
            }
            assert(addresses_ok(self@.areas, self@.streets, self@.addresses));
            lemma_assignments_ok_new_refs(
                self@.teams,
                self@.teams,
                old(self)@.addresses,
                self@.addresses,
                self@.assignments,
            );
            assert(self@.wf());
            assert(old(self)@.addresses[idx as int].id == address_id);
            assert(result@ == self@.addresses[idx as int]);
        }
        Ok(result)
    }
}


/// The teams scoped to one area, in table order (ascending id).
pub open spec fn teams_of_area(teams: Seq<TeamRow>, area_id: i64) -> Seq<Team>
    decreases teams.len(),
{
    if teams.len() == 0 {
        Seq::empty()
    } else {
        let rest = teams_of_area(teams.drop_last(), area_id);
        if teams.last().area_id == area_id {
            rest.push(team_of_row(teams.last()))
        } else {
            rest
        }
    }
}

/// The largest team number used in the given area, or -1 when the area
/// has no team yet.
pub open spec fn max_team_number(teams: Seq<TeamRow>, area_id: i64) -> int
    decreases teams.len(),
{
    if teams.len() == 0 {
        -1
    } else {
        let rest = max_team_number(teams.drop_last(), area_id);
        if teams.last().area_id == area_id && teams.last().number > rest {
            teams.last().number as int
        } else {
            rest
        }
    }
}

/// Whether an assignment row ties the given address to the given team.
pub open spec fn assigned_to(assignments: Seq<AssignRow>, team_id: i64, address_id: i64) -> bool {
    exists|i: int|
        0 <= i < assignments.len() && #[trigger] assignments[i].address_id == address_id
            && assignments[i].team_id == team_id
}

/// The street row with the given id, by first match.
pub open spec fn street_lookup(streets: Seq<StreetRowV>, street_id: i64) -> Option<StreetRowV>
    decreases streets.len(),
{
    if streets.len() == 0 {
        None
    } else if streets[0].id == street_id {
        Some(streets[0])
    } else {
        street_lookup(streets.drop_first(), street_id)
    }
}

/// With distinct street ids, `street_lookup` answers exactly as the
/// table reads.
pub proof fn lemma_street_lookup_unique(streets: Seq<StreetRowV>, street_id: i64)
    requires
        forall|i: int, j: int|
            0 <= i < j < streets.len() ==> #[trigger] streets[i].id != #[trigger] streets[j].id,
    ensures
        forall|i: int|
            0 <= i < streets.len() && #[trigger] streets[i].id == street_id ==> street_lookup(
                streets,
                street_id,
            ) == Some(streets[i]),
        (forall|i: int| 0 <= i < streets.len() ==> #[trigger] streets[i].id != street_id)
            ==> street_lookup(streets, street_id) is None,
    decreases streets.len(),
{
    if streets.len() > 0 {
        if streets[0].id == street_id {
            assert forall|i: int|
                0 <= i < streets.len() && #[trigger] streets[i].id == street_id
                implies street_lookup(streets, street_id) == Some(streets[i]) by {
                if i != 0 {
                    assert(streets[0].id != streets[i].id);
                }
            }
        } else {
            let rest = streets.drop_first();
            lemma_street_lookup_unique(rest, street_id);
            assert forall|i: int|
                0 <= i < streets.len() && #[trigger] streets[i].id == street_id
                implies street_lookup(streets, street_id) == Some(streets[i]) by {
                assert(rest[i - 1] == streets[i]);
            }
            if forall|i: int| 0 <= i < streets.len() ==> #[trigger] streets[i].id != street_id {
                assert forall|i: int| 0 <= i < rest.len() implies #[trigger] rest[i].id
                    != street_id by {
                    assert(rest[i] == streets[i + 1]);
                }
            }
        }
    }
}

/// The team-address listing row an address stands for: the address
/// joined with its assigned street, if any.
pub open spec fn team_address_of(streets: Seq<StreetRowV>, a: AddressV) -> TeamAddressV {
    TeamAddressV {
        address_id: a.id,
        street_id: a.assigned_street_id,
        street_name: match a.assigned_street_id {
            Some(sid) => match street_lookup(streets, sid) {
                Some(srow) => srow.name,
                None => None,
            },
            None => None,
        },
        house_number: a.house_number,
    }
}

/// The listing of one team's addresses in one area, by ascending
/// address id.
pub open spec fn team_addresses_of(
    streets: Seq<StreetRowV>,
    addresses: Seq<AddressV>,
    assignments: Seq<AssignRow>,
    area_id: i64,
    team_id: i64,
) -> Seq<TeamAddressV>
    decreases addresses.len(),
{
    if addresses.len() == 0 {
        Seq::empty()
    } else {
        let rest = team_addresses_of(streets, addresses.drop_last(), assignments, area_id, team_id);
        if addresses.last().area_id == area_id && assigned_to(
            assignments,
            team_id,
            addresses.last().id,
        ) {
            rest.push(team_address_of(streets, addresses.last()))
        } else {
            rest
        }
    }
}

impl WorkingStore {
    /// The teams of the given area, listed by ascending id.
    #[verifier::loop_isolation(false)]
    pub fn get_teams(&self, area_id: i64) -> (r: Vec<Team>)
        requires
            self@.wf(),
        ensures
            r@ == teams_of_area(self@.teams, area_id),
    {
        let mut out: Vec<Team> = Vec::new();
        let mut idx: usize = 0;
        proof {
            assert(self@.teams.take(0) =~= Seq::<TeamRow>::empty());
        }
        while idx < self.teams.len()
            invariant
                idx <= self.teams.len(),
                out@ == teams_of_area(self@.teams.take(idx as int), area_id),
            decreases self.teams.len() - idx,
        {
            let ghost pre = out@;
            let row = &self.teams[idx];
            if row.area_id == area_id {
                out.push(Team { id: row.id, number: row.number });
            }
            proof {
                assert(self@.teams.take(idx as int + 1).drop_last() =~= self@.teams.take(
                    idx as int,
                ));
                assert(self@.teams.take(idx as int + 1).last() == self@.teams[idx as int]);
                assert(out@ == teams_of_area(self@.teams.take(idx as int + 1), area_id));
            }
            idx += 1;
        }
        proof {
            assert(self@.teams.take(self@.teams.len() as int) =~= self@.teams);
        }
        out
    }

    /// The team with the given id in the given area, or nothing when no
    /// such team exists there.
    #[verifier::loop_isolation(false)]
    pub fn get_team_by_id(&self, area_id: i64, team_id: i64) -> (r: Option<Team>)
        requires
            self@.wf(),
        ensures
            match r {
                Some(team) => exists|i: int|
                    0 <= i < self@.teams.len() && #[trigger] self@.teams[i].id == team_id
                        && self@.teams[i].area_id == area_id && team == team_of_row(self@.teams[i]),
                None => !self@.team_in_area(area_id, team_id),
            },
    {
        let mut idx: usize = 0;
        while idx < self.teams.len()
            invariant
                idx <= self.teams.len(),
                forall|i: int|
                    0 <= i < idx ==> !(#[trigger] self@.teams[i].id == team_id
                        && self@.teams[i].area_id == area_id),
            decreases self.teams.len() - idx,
        {
            let row = &self.teams[idx];
            if row.id == team_id && row.area_id == area_id {
                proof {
                    assert(self@.teams[idx as int].id == team_id);
                }
                return Some(Team { id: row.id, number: row.number });
            }
            idx += 1;
        }
        None
    }

    /// Insert a new team row scoped to the given area, numbered with the
    /// area's next sequential team number (starting at zero).  Fails
    /// with `ForeignKey` when the area does not exist.
    #[verifier::loop_isolation(false)]
    pub fn add_team(&mut self, area_id: i64) -> (r: Result<Team, StoreError>)
        requires
            old(self)@.wf(),
        ensures
            final(self)@.wf(),
            match r {
                Ok(team) => {
                    &&& old(self)@.has_area(area_id)
                    &&& team.id == old(self)@.next_team_id()
                    &&& team.number == max_team_number(old(self)@.teams, area_id) + 1
                    &&& final(self)@ =~~= old(self)@.with_teams(
                        old(self)@.teams.push(
                            TeamRow { id: team.id, area_id, number: team.number },
                        ),
                    )
                },
                Err(e) => {
                    &&& final(self)@ == old(self)@
                    &&& (e == StoreError::ForeignKey || e == StoreError::Full)
                    &&& (e == StoreError::ForeignKey <==> !old(self)@.has_area(area_id))
                    &&& (e == StoreError::Full ==> old(self)@.next_team_id() > i64::MAX
                        || max_team_number(old(self)@.teams, area_id) + 1 > u16::MAX)
                },
            },
    {
        if !self.area_exists(area_id) {
            return Err(StoreError::ForeignKey);
        }
        let id = if self.teams.len() == 0 {
            1
        } else {
            let last = self.teams[self.teams.len() - 1].id;
            if last == i64::MAX {
                return Err(StoreError::Full);
            }
            last + 1
        };
        let mut maxn: i64 = -1;
        let mut idx: usize = 0;
        proof {
            assert(self@.teams.take(0) =~= Seq::<TeamRow>::empty());
        }
        while idx < self.teams.len()
            invariant
                idx <= self.teams.len(),
                -1 <= maxn <= u16::MAX,
                maxn == max_team_number(self@.teams.take(idx as int), area_id),
            decreases self.teams.len() - idx,
        {
            let row = &self.teams[idx];
            if row.area_id == area_id && (row.number as i64) > maxn {
                maxn = row.number as i64;
            }
            proof {
                assert(self@.teams.take(idx as int + 1).drop_last() =~= self@.teams.take(
                    idx as int,
                ));
                assert(self@.teams.take(idx as int + 1).last() == self@.teams[idx as int]);
            }
            idx += 1;
        }
        proof {
            assert(self@.teams.take(self@.teams.len() as int) =~= self@.teams);
        }
        if maxn >= u16::MAX as i64 {
            return Err(StoreError::Full);
        }
        let number: u16 = (maxn + 1) as u16;
        let row = TeamRow { id, area_id, number };
        proof {
            assert forall|i: int| 0 <= i < self@.teams.len() implies #[trigger] self@.teams[i].id
                < id by {
                if i < self@.teams.len() - 1 {
                    assert(self@.teams[i].id < self@.teams[self@.teams.len() - 1].id);
                }
            }
            lemma_max_team_number_bound(self@.teams, area_id);
        }
        self.teams.push(row);
        proof {
            assert(self@.teams =~= old(self)@.teams.push(row));
            assert(self@ =~~= old(self)@.with_teams(old(self)@.teams.push(row)));
            lemma_team_refs_kept(old(self)@.teams, self@.teams);
            assert(teams_ok(self@.areas, self@.teams));
            lemma_assignments_ok_new_refs(
                old(self)@.teams,
                self@.teams,
                self@.addresses,
                self@.addresses,
                self@.assignments,
            );
            lemma_bounds_ok_new_teams(old(self)@.teams, self@.teams, self@.team_bounds);
            assert(self@.wf());
        }
        Ok(Team { id, number })
    }

    /// Whether an address with the given id exists in the given area.
    fn address_exists(&self, area_id: i64, address_id: i64) -> (r: bool)
        ensures
            r == self@.address_in_area(area_id, address_id),
    {
        match self.address_idx(area_id, address_id) {
            Some(idx) => {
                proof {
                    assert(self@.addresses[idx as int].id == address_id);
                }
                true
            },
            None => false,
        }
    }

    /// Whether the given address already has a team assignment.
    #[verifier::loop_isolation(false)]
    fn assignment_exists(&self, address_id: i64) -> (r: bool)
        ensures
            r == self@.address_assigned(address_id),
    {
        let mut idx: usize = 0;
        while idx < self.assignments.len()
            invariant
                idx <= self.assignments.len(),
                forall|i: int|
                    0 <= i < idx ==> #[trigger] self@.assignments[i].address_id != address_id,
            decreases self.assignments.len() - idx,
        {
            if self.assignments[idx].address_id == address_id {
                proof {
                    assert(self@.assignments[idx as int].address_id == address_id);
                }
                return true;
            }
            idx += 1;
        }
        false
    }

    /// Assign an address to a team, both scoped to the given area.
    /// Fails with `ForeignKey` when the team or the address does not
    /// exist in that area, and with `Uniqueness` when the address
    /// already has an assignment.
    pub fn assign_address(&mut self, area_id: i64, team_id: i64, address_id: i64) -> (r: Result<
        (),
        StoreError,
    >)
        requires
            old(self)@.wf(),
        ensures
            final(self)@.wf(),
            match r {
                Ok(_) => {
                    &&& old(self)@.team_in_area(area_id, team_id)
                    &&& old(self)@.address_in_area(area_id, address_id)
                    &&& !old(self)@.address_assigned(address_id)
                    &&& final(self)@ =~~= old(self)@.with_assignments(
                        old(self)@.assignments.push(AssignRow { team_id, address_id, area_id }),
                    )
                },
                Err(e) => {
                    &&& final(self)@ == old(self)@
                    &&& (e == StoreError::ForeignKey || e == StoreError::Uniqueness)
                    &&& (e == StoreError::ForeignKey <==> !(old(self)@.team_in_area(
                        area_id,
                        team_id,
                    ) && old(self)@.address_in_area(area_id, address_id)))
                    &&& (e == StoreError::Uniqueness <==> old(self)@.team_in_area(area_id, team_id)
                        && old(self)@.address_in_area(area_id, address_id)
                        && old(self)@.address_assigned(address_id))
                },
            },
    {
        if !self.team_exists(area_id, team_id) || !self.address_exists(area_id, address_id) {
            return Err(StoreError::ForeignKey);
        }
        if self.assignment_exists(address_id) {
            return Err(StoreError::Uniqueness);
        }
        let row = AssignRow { team_id, address_id, area_id };
        self.assignments.push(row);
        proof {
            assert(self@.assignments =~= old(self)@.assignments.push(row));
            assert(self@ =~~= old(self)@.with_assignments(old(self)@.assignments.push(row)));
            assert(assignments_ok(self@.teams, self@.addresses, self@.assignments));
            assert(self@.wf());
        }
        Ok(())
    }

    /// Remove the assignment that ties the given address to the given
    /// team within the given area, if it exists.
    #[verifier::rlimit(100)]
    pub fn unassign_address(&mut self, area_id: i64, team_id: i64, address_id: i64)
        requires
            old(self)@.wf(),
        ensures
            final(self)@.wf(),
            final(self)@ == old(self)@.with_assignments(final(self)@.assignments),
            forall|k: int|
                0 <= k < final(self)@.assignments.len() ==> #[trigger] final(self)@.assignments[k]
                    != (AssignRow { team_id, address_id, area_id }),
            forall|a: i64|
                a != address_id ==> (#[trigger] assigned_in(final(self)@.assignments, a)
                    == assigned_in(old(self)@.assignments, a)),
            (exists|j: int|
                0 <= j < old(self)@.assignments.len() && #[trigger] old(self)@.assignments[j]
                    == (AssignRow { team_id, address_id, area_id })) ==> !assigned_in(
                final(self)@.assignments,
                address_id,
            ),
            (exists|j: int|
                0 <= j < old(self)@.assignments.len()
                    && #[trigger] old(self)@.assignments[j].team_id == team_id
                    && old(self)@.assignments[j].address_id == address_id
                    && old(self)@.assignments[j].area_id == area_id) ==> exists|j: int|
                {
                    &&& 0 <= j < old(self)@.assignments.len()
                    &&& #[trigger] old(self)@.assignments[j].team_id == team_id
                    &&& old(self)@.assignments[j].address_id == address_id
                    &&& old(self)@.assignments[j].area_id == area_id
                    &&& final(self)@.assignments == old(self)@.assignments.remove(j)
                },
            (forall|j: int|
                0 <= j < old(self)@.assignments.len() ==> !(#[trigger] old(
                    self,
                )@.assignments[j].team_id == team_id && old(self)@.assignments[j].address_id
                    == address_id && old(self)@.assignments[j].area_id == area_id))
                ==> final(self)@.assignments == old(self)@.assignments,
    {
        let target = AssignRow { team_id, address_id, area_id };
        match self.assignment_idx(target) {
            Some(i) => {
                let ghost ov = self@.assignments;
                self.assignments.remove(i);
                proof {
                    assert(self@.assignments =~= ov.remove(i as int));
                    assert(self@ =~~= old(self)@.with_assignments(self@.assignments));
                    lemma_assignment_removed(ov, i as int, self@.teams, self@.addresses);
                    assert(ov == old(self)@.assignments);
                    assert(ov[i as int] == (AssignRow { team_id, address_id, area_id }));
                    assert(old(self)@.assignments[i as int].team_id == team_id && old(
                        self,
                    )@.assignments[i as int].address_id == address_id && old(
                        self,
                    )@.assignments[i as int].area_id == area_id);
                    assert(self@.assignments == old(self)@.assignments.remove(i as int));
                    assert(self@.wf());
                    assert forall|k: int|
                        0 <= k < self@.assignments.len() implies exists|j: int|
                        0 <= j < old(self)@.assignments.len() && #[trigger] self@.assignments[k]
                            == old(self)@.assignments[j] by {
                        if k < i {
                            assert(self@.assignments[k] == old(self)@.assignments[k]);
                        } else {
                            assert(self@.assignments[k] == old(self)@.assignments[k + 1]);
                        }
                    }
                }
            },
            None => {
                proof {
                    assert(self@.assignments == old(self)@.assignments);
                    assert(self@ =~~= old(self)@.with_assignments(self@.assignments));
                    assert forall|j: int|
                        0 <= j < self@.assignments.len() implies !(#[trigger] self@.assignments[j].team_id
                        == team_id && self@.assignments[j].address_id == address_id
                        && self@.assignments[j].area_id == area_id) by {
                        if self@.assignments[j].team_id == team_id
                            && self@.assignments[j].address_id == address_id
                            && self@.assignments[j].area_id == area_id {
                            assert(self@.assignments[j] == (AssignRow {
                                team_id,
                                address_id,
                                area_id,
                            }));
                        }
                    }
                }
            },
        }
    }

    /// The position of the exact assignment row, if present.
    #[verifier::loop_isolation(false)]
    fn assignment_idx(&self, row: AssignRow) -> (r: Option<usize>)
        ensures
            match r {
                Some(i) => 0 <= i < self@.assignments.len() && self@.assignments[i as int] == row,
                None => forall|k: int|
                    0 <= k < self@.assignments.len() ==> #[trigger] self@.assignments[k] != row,
            },
    {
        let mut idx: usize = 0;
        while idx < self.assignments.len()
            invariant
                idx <= self.assignments.len(),
                forall|k: int| 0 <= k < idx ==> #[trigger] self@.assignments[k] != row,
            decreases self.assignments.len() - idx,
        {
            let a = &self.assignments[idx];
            if a.team_id == row.team_id && a.address_id == row.address_id && a.area_id
                == row.area_id {
                return Some(idx);
            }
            idx += 1;
        }
        None
    }
}

/// Removing one assignment row keeps the assignment table well-formed,
/// frees exactly that row's address, and leaves every other address's
/// assignment standing.
pub proof fn lemma_assignment_removed(
    ov: Seq<AssignRow>,
    i: int,
    teams: Seq<TeamRow>,
    addresses: Seq<AddressV>,
)
    requires
        assignments_ok(teams, addresses, ov),
        0 <= i < ov.len(),
    ensures
        assignments_ok(teams, addresses, ov.remove(i)),
        forall|k: int|
            0 <= k < ov.remove(i).len() ==> #[trigger] ov.remove(i)[k] != ov[i],
        forall|k: int|
            0 <= k < ov.remove(i).len() ==> exists|j: int|
                0 <= j < ov.len() && #[trigger] ov.remove(i)[k] == ov[j],
        forall|a: i64|
            a != ov[i].address_id ==> (#[trigger] assigned_in(ov.remove(i), a) == assigned_in(
                ov,
                a,
            )),
        !assigned_in(ov.remove(i), ov[i].address_id),
{
    let out = ov.remove(i);
    assert forall|k: int|
        0 <= k < out.len() implies #[trigger] out[k] == (if k < i {
        ov[k]
    } else {
        ov[k + 1]
    }) by {}
    assert forall|k: int| 0 <= k < out.len() implies exists|j: int|
        0 <= j < ov.len() && #[trigger] out[k] == ov[j] by {
        if k < i {
            assert(out[k] == ov[k]);
        } else {
            assert(out[k] == ov[k + 1]);
        }
    }
    assert forall|k: int| 0 <= k < out.len() implies #[trigger] out[k].address_id
        != ov[i].address_id by {
        if k < i {
            assert(ov[k].address_id != ov[i].address_id);
        } else {
            assert(ov[i].address_id != ov[k + 1].address_id);
        }
    }
    assert forall|i2: int, j2: int| 0 <= i2 < j2 < out.len() implies #[trigger] out[i2].address_id
        != #[trigger] out[j2].address_id by {
        let oi = if i2 < i {
            i2
        } else {
            i2 + 1
        };
        let oj = if j2 < i {
            j2
        } else {
            j2 + 1
        };
        assert(out[i2] == ov[oi] && out[j2] == ov[oj]);
        assert(ov[oi].address_id != ov[oj].address_id);
    }
    assert forall|i2: int|
        0 <= i2 < out.len() implies {
        let a = #[trigger] out[i2];
        &&& team_in(teams, a.area_id, a.team_id)
        &&& address_in(addresses, a.area_id, a.address_id)
    } by {
        let j = choose|j: int| 0 <= j < ov.len() && #[trigger] out[i2] == ov[j];
        assert(team_in(teams, ov[j].area_id, ov[j].team_id));
        assert(address_in(addresses, ov[j].area_id, ov[j].address_id));
    }
    assert forall|a: i64| a != ov[i].address_id implies (#[trigger] assigned_in(out, a)
        == assigned_in(ov, a)) by {
        if assigned_in(ov, a) {
            let w = choose|w: int| 0 <= w < ov.len() && #[trigger] ov[w].address_id == a;
            assert(w != i);
            if w < i {
                assert(out[w].address_id == a);
            } else {
                assert(out[w - 1].address_id == a);
            }
        }
        if assigned_in(out, a) {
            let w = choose|w: int| 0 <= w < out.len() && #[trigger] out[w].address_id == a;
            if w < i {
                assert(ov[w].address_id == a);
            } else {
                assert(ov[w + 1].address_id == a);
            }
        }
    }
    assert(!assigned_in(out, ov[i].address_id));
    assert forall|k: int| 0 <= k < out.len() implies #[trigger] out[k] != ov[i] by {
        assert(out[k].address_id != ov[i].address_id);
    }
}

/// Every team number used in an area is bounded by the area's maximum.
pub proof fn lemma_max_team_number_bound(teams: Seq<TeamRow>, area_id: i64)
    ensures
        forall|i: int|
            0 <= i < teams.len() && #[trigger] teams[i].area_id == area_id ==> teams[i].number
                <= max_team_number(teams, area_id),
    decreases teams.len(),
{
    if teams.len() > 0 {
        lemma_max_team_number_bound(teams.drop_last(), area_id);
        assert forall|i: int|
            0 <= i < teams.len() && #[trigger] teams[i].area_id == area_id implies teams[i].number
            <= max_team_number(teams, area_id) by {
            if i < teams.len() - 1 {
                assert(teams.drop_last()[i] == teams[i]);
                assert(teams[i].number <= max_team_number(teams.drop_last(), area_id));
            }
        }
    }
}



/// The teams of one area that have at least one assigned address, each
/// with its address listing, by ascending team id.
pub open spec fn teams_with_addresses(
    streets: Seq<StreetRowV>,
    addresses: Seq<AddressV>,
    assignments: Seq<AssignRow>,
    teams: Seq<TeamRow>,
    area_id: i64,
) -> Seq<(i64, Seq<TeamAddressV>)>
    decreases teams.len(),
{
    if teams.len() == 0 {
        Seq::empty()
    } else {
        let rest = teams_with_addresses(
            streets,
            addresses,
            assignments,
            teams.drop_last(),
            area_id,
        );
        let t = teams.last();
        let list = team_addresses_of(streets, addresses, assignments, area_id, t.id);
        if t.area_id == area_id && list.len() > 0 {
            rest.push((t.id, list))
        } else {
            rest
        }
    }
}

impl WorkingStore {
    /// Whether an assignment ties the given address to the given team.
    #[verifier::loop_isolation(false)]
    fn assigned_to_team(&self, team_id: i64, address_id: i64) -> (r: bool)
        ensures
            r == assigned_to(self@.assignments, team_id, address_id),
    {
        let mut idx: usize = 0;
        while idx < self.assignments.len()
            invariant
                idx <= self.assignments.len(),
                forall|i: int|
                    0 <= i < idx ==> !(#[trigger] self@.assignments[i].address_id == address_id
                        && self@.assignments[i].team_id == team_id),
            decreases self.assignments.len() - idx,
        {
            let a = &self.assignments[idx];
            if a.address_id == address_id && a.team_id == team_id {
                proof {
                    assert(self@.assignments[idx as int].address_id == address_id);
                }
                return true;
            }
            idx += 1;
        }
        false
    }

    /// The name of the street with the given id, flattened: nothing when
    /// the street does not exist or has no name.
    #[verifier::loop_isolation(false)]
    fn street_name_for(&self, street_id: i64) -> (r: Option<String>)
        requires
            self@.wf(),
        ensures
            r.deep_view() == (match street_lookup(self@.streets, street_id) {
                Some(srow) => srow.name,
                None => None,
            }),
    {
        proof {
            assert forall|i: int, j: int| 0 <= i < j < self@.streets.len()
                implies #[trigger] self@.streets[i].id != #[trigger] self@.streets[j].id by {
                assert(self@.streets[i].id < self@.streets[j].id);
            }
            lemma_street_lookup_unique(self@.streets, street_id);
        }
        let mut idx: usize = 0;
        while idx < self.streets.len()
            invariant
                idx <= self.streets.len(),
                forall|i: int| 0 <= i < idx ==> #[trigger] self@.streets[i].id != street_id,
            decreases self.streets.len() - idx,
        {
            let row = &self.streets[idx];
            if row.id == street_id {
                proof {
                    assert(self@.streets[idx as int].id == street_id);
                    assert(street_lookup(self@.streets, street_id) == Some(
                        self@.streets[idx as int],
                    ));
                }
                return clone_opt_string(&row.name);
            }
            idx += 1;
        }
        None
    }

    /// The addresses assigned to the given team in the given area,
    /// joined with their streets, by ascending address id.
    #[verifier::loop_isolation(false)]
    pub fn get_team_addresses(&self, area_id: i64, team_id: i64) -> (r: Vec<
        crate::model::TeamAddress,
    >)
        requires
            self@.wf(),
        ensures
            r.deep_view() == team_addresses_of(
                self@.streets,
                self@.addresses,
                self@.assignments,
                area_id,
                team_id,
            ),
    {
        let mut out: Vec<crate::model::TeamAddress> = Vec::new();
        let mut idx: usize = 0;
        proof {
            assert(self@.addresses.take(0) =~= Seq::<AddressV>::empty());
        }
        while idx < self.addresses.len()
            invariant
                idx <= self.addresses.len(),
                out.deep_view() == team_addresses_of(
                    self@.streets,
                    self@.addresses.take(idx as int),
                    self@.assignments,
                    area_id,
                    team_id,
                ),
            decreases self.addresses.len() - idx,
        {
            let ghost pre = out.deep_view();
            let in_team = self.assigned_to_team(team_id, self.addresses[idx].id);
            let row = &self.addresses[idx];
            if row.area_id == area_id && in_team {
                let street_name = match row.assigned_street_id {
                    Some(sid) => self.street_name_for(sid),
                    None => None,
                };
                let ta = crate::model::TeamAddress {
                    address_id: row.id,
                    street_id: row.assigned_street_id,
                    street_name,
                    house_number: row.house_number.clone(),
                };
                let ghost tav = ta@;
                out.push(ta);
                proof {
                    assert(out.deep_view() =~= pre.push(tav));
                    assert(tav == team_address_of(self@.streets, self@.addresses[idx as int]));
                }
            }
            proof {
                assert(self@.addresses.take(idx as int + 1).drop_last() =~= self@.addresses.take(
                    idx as int,
                ));
                assert(self@.addresses.take(idx as int + 1).last() == self@.addresses[idx as int]);
                assert(out.deep_view() == team_addresses_of(
                    self@.streets,
                    self@.addresses.take(idx as int + 1),
                    self@.assignments,
                    area_id,
                    team_id,
                ));
            }
            idx += 1;
        }
        proof {
            assert(self@.addresses.take(self@.addresses.len() as int) =~= self@.addresses);
        }
        out
    }

    /// Every team of the given area that has assigned addresses, with
    /// its address listing, in one pass, by ascending team id.
    #[verifier::loop_isolation(false)]
    pub fn get_team_addresses_all(&self, area_id: i64) -> (r: Vec<(i64, Vec<crate::model::TeamAddress>)>)
        requires
            self@.wf(),
        ensures
            r.deep_view() == teams_with_addresses(
                self@.streets,
                self@.addresses,
                self@.assignments,
                self@.teams,
                area_id,
            ),
    {
        let mut out: Vec<(i64, Vec<crate::model::TeamAddress>)> = Vec::new();
        let mut idx: usize = 0;
        proof {
            assert(self@.teams.take(0) =~= Seq::<TeamRow>::empty());
        }
        while idx < self.teams.len()
            invariant
                idx <= self.teams.len(),
                out.deep_view() == teams_with_addresses(
                    self@.streets,
                    self@.addresses,
                    self@.assignments,
                    self@.teams.take(idx as int),
                    area_id,
                ),
            decreases self.teams.len() - idx,
        {
            let ghost pre = out.deep_view();
            let team_id = self.teams[idx].id;
            let team_area = self.teams[idx].area_id;
            if team_area == area_id {
                let list = self.get_team_addresses(area_id, team_id);
                if list.len() > 0 {
                    let ghost listv = list.deep_view();
                    out.push((team_id, list));
                    proof {
                        assert(out.deep_view() =~= pre.push((team_id, listv)));
                    }
                }
            }
            proof {
                assert(self@.teams.take(idx as int + 1).drop_last() =~= self@.teams.take(
                    idx as int,
                ));
                assert(self@.teams.take(idx as int + 1).last() == self@.teams[idx as int]);
                assert(out.deep_view() == teams_with_addresses(
                    self@.streets,
                    self@.addresses,
                    self@.assignments,
                    self@.teams.take(idx as int + 1),
                    area_id,
                ));
            }
            idx += 1;
        }
        proof {
            assert(self@.teams.take(self@.teams.len() as int) =~= self@.teams);
        }
        out
    }

    /// The metadata value stored under the given key, if any.
    #[verifier::loop_isolation(false)]
    pub fn meta_get(&self, key: &String) -> (r: Option<String>)
        requires
            self@.wf(),
        ensures
            match r {
                Some(v) => meta_lookup(self@.meta, key@) == Some(v@),
                None => meta_lookup(self@.meta, key@) is None,
            },
    {
        let ghost all = self@.meta;
        let mut idx: usize = 0;
        proof {
            assert(all.skip(0) =~= all);
        }
        while idx < self.meta.len()
            invariant
                idx <= self.meta.len(),
                meta_lookup(all, key@) == meta_lookup(all.skip(idx as int), key@),
            decreases self.meta.len() - idx,
        {
            let ghost rest = all.skip(idx as int);
            proof {
                assert(rest[0] == all[idx as int]);
                assert(rest.drop_first() =~= all.skip(idx as int + 1));
            }
            if self.meta[idx].key.eq(key) {
                proof {
                    assert(rest[0].key == key@);
                    assert(meta_lookup(rest, key@) == Some(all[idx as int].value));
                }
                return Some(self.meta[idx].value.clone());
            }
            idx += 1;
        }
        proof {
            assert(all.skip(all.len() as int) =~= Seq::<MetaRowV>::empty());
        }
        None
    }

    /// Store a metadata value under the given key, replacing any value
    /// the key already holds; every other key's value stands unchanged.
    #[verifier::loop_isolation(false)]
    pub fn meta_set(&mut self, key: &String, value: &String)
        requires
            old(self)@.wf(),
        ensures
            final(self)@.wf(),
            final(self)@ == old(self)@.with_meta(final(self)@.meta),
            meta_lookup(final(self)@.meta, key@) == Some(value@),
            forall|k: Seq<char>|
                k != key@ ==> #[trigger] meta_lookup(final(self)@.meta, k) == meta_lookup(
                    old(self)@.meta,
                    k,
                ),
    {
        let mut idx: usize = 0;
        while idx < self.meta.len()
            invariant
                *self == *old(self),
                idx <= self.meta.len(),
                forall|i: int| 0 <= i < idx ==> #[trigger] self@.meta[i].key != key@,
            decreases self.meta.len() - idx,
        {
            if self.meta[idx].key.eq(key) {
                let new_row = MetaRow { key: key.clone(), value: value.clone() };
                let ghost new_rowv = new_row@;
                self.meta[idx] = new_row;
                proof {
                    assert(self@.meta =~= old(self)@.meta.update(idx as int, new_rowv));
                    assert(self@ =~~= old(self)@.with_meta(self@.meta));
                    assert(old(self)@.meta[idx as int].key == key@);
                    lemma_meta_update(old(self)@.meta, idx as int, key@, value@);
                    assert(self@.wf());
                }
                return ;
            }
            idx += 1;
        }
        let new_row = MetaRow { key: key.clone(), value: value.clone() };
        let ghost new_rowv = new_row@;
        self.meta.push(new_row);
        proof {
            assert(self@.meta =~= old(self)@.meta.push(new_rowv));
            assert(self@ =~~= old(self)@.with_meta(self@.meta));
            assert(meta_ok(self@.meta));
            lemma_meta_push(old(self)@.meta, key@, value@);
            assert(self@.wf());
        }
    }
}

/// The metadata value stored under a key, by first match.
pub open spec fn meta_lookup(meta: Seq<MetaRowV>, key: Seq<char>) -> Option<Seq<char>>
    decreases meta.len(),
{
    if meta.len() == 0 {
        None
    } else if meta[0].key == key {
        Some(meta[0].value)
    } else {
        meta_lookup(meta.drop_first(), key)
    }
}

/// With distinct keys, the lookup answers exactly as the table reads.
pub proof fn lemma_meta_lookup_unique(meta: Seq<MetaRowV>, key: Seq<char>)
    requires
        meta_ok(meta),
    ensures
        forall|i: int|
            0 <= i < meta.len() && #[trigger] meta[i].key == key ==> meta_lookup(meta, key) == Some(
                meta[i].value,
            ),
        (forall|i: int| 0 <= i < meta.len() ==> #[trigger] meta[i].key != key) ==> meta_lookup(
            meta,
            key,
        ) is None,
    decreases meta.len(),
{
    if meta.len() > 0 {
        let rest = meta.drop_first();
        assert forall|i: int, j: int| 0 <= i < j < rest.len() implies #[trigger] rest[i].key
            != #[trigger] rest[j].key by {
            assert(rest[i] == meta[i + 1] && rest[j] == meta[j + 1]);
            assert(meta[i + 1].key != meta[j + 1].key);
        }
        lemma_meta_lookup_unique(rest, key);
        if meta[0].key == key {
            assert forall|i: int|
                0 <= i < meta.len() && #[trigger] meta[i].key == key implies meta_lookup(meta, key)
                == Some(meta[i].value) by {
                if i != 0 {
                    assert(meta[0].key != meta[i].key);
                }
            }
        } else {
            assert forall|i: int|
                0 <= i < meta.len() && #[trigger] meta[i].key == key implies meta_lookup(meta, key)
                == Some(meta[i].value) by {
                assert(rest[i - 1] == meta[i]);
            }
            if forall|i: int| 0 <= i < meta.len() ==> #[trigger] meta[i].key != key {
                assert forall|i: int| 0 <= i < rest.len() implies #[trigger] rest[i].key != key by {
                    assert(rest[i] == meta[i + 1]);
                }
            }
        }
    }
}

/// Replacing the row that holds a key stores the new value under the
/// key, keeps keys distinct, and leaves every other key's value alone.
pub proof fn lemma_meta_update(meta: Seq<MetaRowV>, i: int, key: Seq<char>, value: Seq<char>)
    requires
        meta_ok(meta),
        0 <= i < meta.len(),
        meta[i].key == key,
    ensures
        meta_ok(meta.update(i, MetaRowV { key, value })),
        meta_lookup(meta.update(i, MetaRowV { key, value }), key) == Some(value),
        forall|k: Seq<char>|
            k != key ==> #[trigger] meta_lookup(meta.update(i, MetaRowV { key, value }), k)
                == meta_lookup(meta, k),
{
    let out = meta.update(i, MetaRowV { key, value });
    assert forall|a: int, b: int| 0 <= a < b < out.len() implies #[trigger] out[a].key
        != #[trigger] out[b].key by {
        assert(meta[a].key != meta[b].key);
    }
    lemma_meta_lookup_unique(out, key);
    assert(out[i].key == key);
    assert(meta_lookup(out, key) == Some(value));
    assert forall|k: Seq<char>| k != key implies #[trigger] meta_lookup(out, k) == meta_lookup(
        meta,
        k,
    ) by {
        lemma_meta_lookup_unique(out, k);
        lemma_meta_lookup_unique(meta, k);
        if exists|w: int| 0 <= w < meta.len() && #[trigger] meta[w].key == k {
            let w = choose|w: int| 0 <= w < meta.len() && #[trigger] meta[w].key == k;
            assert(w != i);
            assert(out[w] == meta[w]);
            assert(meta_lookup(out, k) == Some(out[w].value));
            assert(meta_lookup(meta, k) == Some(meta[w].value));
        } else {
            assert forall|w: int| 0 <= w < out.len() implies #[trigger] out[w].key != k by {
                if w != i {
                    assert(out[w] == meta[w]);
                    assert(meta[w].key != k);
                }
            }
            assert(meta_lookup(out, k) is None);
            assert(meta_lookup(meta, k) is None);
        }
    }
}

/// Appending a fresh key stores its value, keeps keys distinct, and
/// leaves every other key's value alone.
pub proof fn lemma_meta_push(meta: Seq<MetaRowV>, key: Seq<char>, value: Seq<char>)
    requires
        meta_ok(meta),
        forall|i: int| 0 <= i < meta.len() ==> #[trigger] meta[i].key != key,
    ensures
        meta_ok(meta.push(MetaRowV { key, value })),
        meta_lookup(meta.push(MetaRowV { key, value }), key) == Some(value),
        forall|k: Seq<char>|
            k != key ==> #[trigger] meta_lookup(meta.push(MetaRowV { key, value }), k)
                == meta_lookup(meta, k),
{
    let out = meta.push(MetaRowV { key, value });
    assert forall|a: int, b: int| 0 <= a < b < out.len() implies #[trigger] out[a].key
        != #[trigger] out[b].key by {
        if b < meta.len() {
            assert(meta[a].key != meta[b].key);
        } else {
            assert(meta[a].key != key);
        }
    }
    lemma_meta_lookup_unique(out, key);
    assert(out[meta.len() as int].key == key);
    assert(meta_lookup(out, key) == Some(value));
    assert forall|k: Seq<char>| k != key implies #[trigger] meta_lookup(out, k) == meta_lookup(
        meta,
        k,
    ) by {
        lemma_meta_lookup_unique(out, k);
        lemma_meta_lookup_unique(meta, k);
        if exists|w: int| 0 <= w < meta.len() && #[trigger] meta[w].key == k {
            let w = choose|w: int| 0 <= w < meta.len() && #[trigger] meta[w].key == k;
            assert(out[w] == meta[w]);
            assert(meta_lookup(out, k) == Some(out[w].value));
            assert(meta_lookup(meta, k) == Some(meta[w].value));
        } else {
            assert forall|w: int| 0 <= w < out.len() implies #[trigger] out[w].key != k by {
                if w < meta.len() {
                    assert(meta[w].key != k);
                }
            }
            assert(meta_lookup(out, k) is None);
            assert(meta_lookup(meta, k) is None);
        }
    }
}

impl WorkingStore {
    /// Delete the address with the given id in the given area, together
    /// with its team assignment if it has one.  Deleting an absent
    /// address changes nothing.
    #[verifier::loop_isolation(false)]
    pub fn delete_address(&mut self, area_id: i64, address_id: i64)
        requires
            old(self)@.wf(),
        ensures
            final(self)@.wf(),
            !final(self)@.address_in_area(area_id, address_id),
            old(self)@.address_in_area(area_id, address_id) ==> !assigned_in(
                final(self)@.assignments,
                address_id,
            ),
            final(self)@ == old(self)@.with_addresses(final(self)@.addresses).with_assignments(
                final(self)@.assignments,
            ),
            (match old(self)@.address_in_area(area_id, address_id) {
                true => exists|i: int|
                    0 <= i < old(self)@.addresses.len() && #[trigger] old(self)@.addresses[i].id
                        == address_id && old(self)@.addresses[i].area_id == area_id
                        && final(self)@.addresses == old(self)@.addresses.remove(i),
                false => final(self)@.addresses == old(self)@.addresses,
            }),
            forall|a: i64|
                a != address_id ==> (#[trigger] assigned_in(final(self)@.assignments, a)
                    == assigned_in(old(self)@.assignments, a)),
    {
        let idx = match self.address_idx(area_id, address_id) {
            Some(idx) => idx,
            None => {
                return ;
            },
        };
        // Remove the assignment that references this address, if any.
        let mut aidx: usize = 0;
        let mut found: Option<usize> = None;
        while aidx < self.assignments.len()
            invariant
                *self == *old(self),
                aidx <= self.assignments.len(),
                match found {
                    Some(i) => 0 <= i < self.assignments.len()
                        && self@.assignments[i as int].address_id == address_id,
                    None => forall|i: int|
                        0 <= i < aidx ==> #[trigger] self@.assignments[i].address_id != address_id,
                },
            decreases self.assignments.len() - aidx,
        {
            if found.is_none() && self.assignments[aidx].address_id == address_id {
                found = Some(aidx);
            }
            aidx += 1;
        }
        let ghost oassign = self@.assignments;
        match found {
            Some(i) => {
                self.assignments.remove(i);
                proof {
                    assert(self@.assignments =~= oassign.remove(i as int));
                    lemma_assignment_removed(oassign, i as int, self@.teams, self@.addresses);
                }
            },
            None => {},
        }
        proof {
            assert(!assigned_in(self@.assignments, address_id));
        }
        // Remove the address row itself.
        let ghost oaddr = self@.addresses;
        let ghost massign = self@.assignments;
        self.addresses.remove(idx);
        proof {
            let av = self@.addresses;
            assert(av =~= oaddr.remove(idx as int));
            assert(self@ =~~= old(self)@.with_addresses(av).with_assignments(massign));
            assert forall|k: int|
                0 <= k < av.len() implies #[trigger] av[k] == (if k < idx {
                oaddr[k]
            } else {
                oaddr[k + 1]
            }) by {}
            assert forall|i2: int, j2: int| 0 <= i2 < j2 < av.len() implies av[i2].id
                < av[j2].id by {
                let oi = if i2 < idx as int {
                    i2
                } else {
                    i2 + 1
                };
                let oj = if j2 < idx as int {
                    j2
                } else {
                    j2 + 1
                };
                assert(oaddr[oi].id < oaddr[oj].id);
            }
            assert forall|k: int|
                0 <= k < av.len() implies {
                let a = #[trigger] av[k];
                &&& a.id >= 1
                &&& has_area_in(self@.areas, a.area_id)
                &&& (a.assigned_street_id matches Some(sid) ==> street_in(
                    self@.streets,
                    a.area_id,
                    sid,
                ))
            } by {
                let o = if k < idx as int {
                    k
                } else {
                    k + 1
                };
                assert(oaddr[o].id >= 1 && has_area_in(self@.areas, oaddr[o].area_id));
                if oaddr[o].assigned_street_id is Some {
                    assert(street_in(
                        self@.streets,
                        oaddr[o].area_id,
                        oaddr[o].assigned_street_id->0,
                    ));
                }
            }
            assert(addresses_ok(self@.areas, self@.streets, av));
            // Remaining assignments never reference the removed address.
            assert forall|k: int| 0 <= k < massign.len()
                implies #[trigger] massign[k].address_id != address_id by {}
            assert forall|k: int|
                0 <= k < massign.len() implies {
                let a = #[trigger] massign[k];
                &&& team_in(self@.teams, a.area_id, a.team_id)
                &&& address_in(av, a.area_id, a.address_id)
            } by {
                assert(team_in(self@.teams, massign[k].area_id, massign[k].team_id));
                assert(address_in(oaddr, massign[k].area_id, massign[k].address_id));
                let w = choose|w: int|
                    0 <= w < oaddr.len() && #[trigger] oaddr[w].id == massign[k].address_id
                        && oaddr[w].area_id == massign[k].area_id;
                assert(w != idx);
                if w < idx as int {
                    assert(av[w].id == massign[k].address_id && av[w].area_id
                        == massign[k].area_id);
                } else {
                    assert(av[w - 1].id == massign[k].address_id && av[w - 1].area_id
                        == massign[k].area_id);
                }
            }
            assert(assignments_ok(self@.teams, av, massign));
            assert(self@.wf());
            if self@.address_in_area(area_id, address_id) {
                let w = choose|w: int|
                    0 <= w < av.len() && #[trigger] av[w].id == address_id && av[w].area_id
                        == area_id;
                assert(av[w].id != address_id);
                assert(false);
            }
            assert(old(self)@.addresses[idx as int].id == address_id);
        }
    }
}


/// The area table without the given area.
pub open spec fn areas_without(areas: Seq<AreaRowV>, id: i64) -> Seq<AreaRowV>
    decreases areas.len(),
{
    if areas.len() == 0 {
        Seq::empty()
    } else {
        let rest = areas_without(areas.drop_last(), id);
        if areas.last().id == id {
            rest
        } else {
            rest.push(areas.last())
        }
    }
}

/// The street table without the streets of the given area.
pub open spec fn streets_without_area(streets: Seq<StreetRowV>, area_id: i64) -> Seq<StreetRowV>
    decreases streets.len(),
{
    if streets.len() == 0 {
        Seq::empty()
    } else {
        let rest = streets_without_area(streets.drop_last(), area_id);
        if streets.last().area_id == area_id {
            rest
        } else {
            rest.push(streets.last())
        }
    }
}

/// The address table without the addresses of the given area.
pub open spec fn addresses_without_area(addresses: Seq<AddressV>, area_id: i64) -> Seq<AddressV>
    decreases addresses.len(),
{
    if addresses.len() == 0 {
        Seq::empty()
    } else {
        let rest = addresses_without_area(addresses.drop_last(), area_id);
        if addresses.last().area_id == area_id {
            rest
        } else {
            rest.push(addresses.last())
        }
    }
}

/// The team table without the teams of the given area.
pub open spec fn teams_without_area(teams: Seq<TeamRow>, area_id: i64) -> Seq<TeamRow>
    decreases teams.len(),
{
    if teams.len() == 0 {
        Seq::empty()
    } else {
        let rest = teams_without_area(teams.drop_last(), area_id);
        if teams.last().area_id == area_id {
            rest
        } else {
            rest.push(teams.last())
        }
    }
}

/// The assignment table without the assignments of the given area.
pub open spec fn assignments_without_area(
    assignments: Seq<AssignRow>,
    area_id: i64,
) -> Seq<AssignRow>
    decreases assignments.len(),
{
    if assignments.len() == 0 {
        Seq::empty()
    } else {
        let rest = assignments_without_area(assignments.drop_last(), area_id);
        if assignments.last().area_id == area_id {
            rest
        } else {
            rest.push(assignments.last())
        }
    }
}

/// The vertex-list rows whose owning street survives the removal of the
/// given area.
pub open spec fn polys_without_street_area(
    rows: Seq<PolyRowV>,
    streets: Seq<StreetRowV>,
    area_id: i64,
) -> Seq<PolyRowV>
    decreases rows.len(),
{
    if rows.len() == 0 {
        Seq::empty()
    } else {
        let rest = polys_without_street_area(rows.drop_last(), streets, area_id);
        if street_in(streets, area_id, rows.last().owner_id) {
            rest
        } else {
            rest.push(rows.last())
        }
    }
}

/// The vertex-list rows whose owning team survives the removal of the
/// given area.
pub open spec fn bounds_without_team_area(
    rows: Seq<PolyRowV>,
    teams: Seq<TeamRow>,
    area_id: i64,
) -> Seq<PolyRowV>
    decreases rows.len(),
{
    if rows.len() == 0 {
        Seq::empty()
    } else {
        let rest = bounds_without_team_area(rows.drop_last(), teams, area_id);
        if team_in(teams, area_id, rows.last().owner_id) {
            rest
        } else {
            rest.push(rows.last())
        }
    }
}

/// Rebuild the area table without the given area.
#[verifier::loop_isolation(false)]
fn filter_areas(rows: &Vec<AreaRow>, victim: i64) -> (r: Vec<AreaRow>)
    requires
        areas_ok(rows.deep_view()),
    ensures
        r.deep_view() == areas_without(rows.deep_view(), victim),
        areas_ok(r.deep_view()),
        !has_area_in(r.deep_view(), victim),
        forall|id: i64|
            id != victim ==> (#[trigger] has_area_in(r.deep_view(), id) == has_area_in(
                rows.deep_view(),
                id,
            )),
{
    let ghost s = rows.deep_view();
    let mut out: Vec<AreaRow> = Vec::new();
    let mut idx: usize = 0;
    proof {
        assert(s.take(0) =~= Seq::<AreaRowV>::empty());
    }
    while idx < rows.len()
        invariant
            idx <= rows.len(),
            out.deep_view() == areas_without(s.take(idx as int), victim),
            forall|k: int|
                0 <= k < out.deep_view().len() ==> exists|m: int|
                    0 <= m < idx && #[trigger] out.deep_view()[k] == s[m],
            forall|k: int| 0 <= k < out.deep_view().len() ==> #[trigger] out.deep_view()[k].id != victim,
            forall|i: int, j: int|
                0 <= i < j < out.deep_view().len() ==> out.deep_view()[i].id < out.deep_view()[j].id,
            forall|m: int|
                0 <= m < idx && #[trigger] s[m].id != victim ==> has_area_in(
                    out.deep_view(),
                    s[m].id,
                ),
        decreases rows.len() - idx,
    {
        let ghost pre = out.deep_view();
        let row = &rows[idx];
        if row.id != victim {
            let copy = AreaRow {
                id: row.id,
                name: row.name.clone(),
                color: row.color,
                state: row.state,
                image_fname: row.image_fname.clone(),
            };
            let ghost cv = copy@;
            out.push(copy);
            proof {
                assert(cv == s[idx as int]);
                assert(out.deep_view() =~= pre.push(cv));
                assert forall|k: int| 0 <= k < out.deep_view().len() implies exists|m: int|
                    0 <= m < idx as int + 1 && #[trigger] out.deep_view()[k] == s[m] by {
                    if k < pre.len() {
                        assert(out.deep_view()[k] == pre[k]);
                        let m = choose|m: int| 0 <= m < idx && pre[k] == s[m];
                        assert(out.deep_view()[k] == s[m]);
                    } else {
                        assert(out.deep_view()[k] == s[idx as int]);
                    }
                }
                assert forall|i: int, j: int| 0 <= i < j < out.deep_view().len()
                    implies out.deep_view()[i].id < out.deep_view()[j].id by {
                    if j < pre.len() {
                        assert(pre[i].id < pre[j].id);
                    } else {
                        let m = choose|m: int| 0 <= m < idx && pre[i] == s[m];
                        assert(s[m].id < s[idx as int].id);
                    }
                }
                assert forall|m: int|
                    0 <= m < idx as int + 1 && #[trigger] s[m].id != victim implies has_area_in(
                    out.deep_view(),
                    s[m].id,
                ) by {
                    if m < idx {
                        let w = choose|w: int| 0 <= w < pre.len() && pre[w].id == s[m].id;
                        assert(out.deep_view()[w].id == s[m].id);
                    } else {
                        assert(out.deep_view()[pre.len() as int].id == s[m].id);
                    }
                }
            }
        } else {
            proof {
                assert forall|m: int|
                    0 <= m < idx as int + 1 && #[trigger] s[m].id != victim implies has_area_in(
                    out.deep_view(),
                    s[m].id,
                ) by {
                    if m < idx {
                        let w = choose|w: int|
                            0 <= w < out.deep_view().len() && out.deep_view()[w].id == s[m].id;
                        assert(out.deep_view()[w].id == s[m].id);
                    }
                }
            }
        }
        proof {
            assert(s.take(idx as int + 1).drop_last() =~= s.take(idx as int));
            assert(s.take(idx as int + 1).last() == s[idx as int]);
            assert(out.deep_view() == areas_without(s.take(idx as int + 1), victim));
        }
        idx += 1;
    }
    proof {
        assert(s.take(s.len() as int) =~= s);
        assert forall|id: i64|
            id != victim implies (#[trigger] has_area_in(out.deep_view(), id) == has_area_in(
            s,
            id,
        )) by {
            if has_area_in(s, id) {
                let m = choose|m: int| 0 <= m < s.len() && s[m].id == id;
                assert(has_area_in(out.deep_view(), s[m].id));
            }
            if has_area_in(out.deep_view(), id) {
                let k = choose|k: int|
                    0 <= k < out.deep_view().len() && out.deep_view()[k].id == id;
                let m = choose|m: int| 0 <= m < s.len() && out.deep_view()[k] == s[m];
                assert(s[m].id == id);
            }
        }
        if has_area_in(out.deep_view(), victim) {
            let k = choose|k: int| 0 <= k < out.deep_view().len() && out.deep_view()[k].id == victim;
            assert(out.deep_view()[k].id != victim);
        }
    }
    out
}


/// Rebuild the street table without the streets of the given area.
#[verifier::loop_isolation(false)]
fn filter_streets(rows: &Vec<StreetRow>, victim: i64) -> (r: Vec<StreetRow>)
    requires
        forall|i: int, j: int|
            0 <= i < j < rows.deep_view().len() ==> #[trigger] rows.deep_view()[i].id
                < #[trigger] rows.deep_view()[j].id,
    ensures
        r.deep_view() == streets_without_area(rows.deep_view(), victim),
        forall|i: int, j: int|
            0 <= i < j < r.deep_view().len() ==> #[trigger] r.deep_view()[i].id
                < #[trigger] r.deep_view()[j].id,
        forall|k: int|
            0 <= k < r.deep_view().len() ==> exists|m: int|
                0 <= m < rows.deep_view().len() && #[trigger] r.deep_view()[k]
                    == rows.deep_view()[m],
        forall|k: int| 0 <= k < r.deep_view().len() ==> #[trigger] r.deep_view()[k].area_id != victim,
        forall|aid: i64, sid: i64|
            aid != victim ==> (#[trigger] street_in(r.deep_view(), aid, sid) == street_in(
                rows.deep_view(),
                aid,
                sid,
            )),
{
    let ghost s = rows.deep_view();
    let mut out: Vec<StreetRow> = Vec::new();
    let mut idx: usize = 0;
    proof {
        assert(s.take(0) =~= Seq::<StreetRowV>::empty());
    }
    while idx < rows.len()
        invariant
            idx <= rows.len(),
            out.deep_view() == streets_without_area(s.take(idx as int), victim),
            forall|k: int|
                0 <= k < out.deep_view().len() ==> exists|m: int|
                    0 <= m < idx && #[trigger] out.deep_view()[k] == s[m],
            forall|k: int|
                0 <= k < out.deep_view().len() ==> #[trigger] out.deep_view()[k].area_id != victim,
            forall|i: int, j: int|
                0 <= i < j < out.deep_view().len() ==> out.deep_view()[i].id < out.deep_view()[j].id,
            forall|m: int|
                0 <= m < idx && #[trigger] s[m].area_id != victim ==> street_in(
                    out.deep_view(),
                    s[m].area_id,
                    s[m].id,
                ),
        decreases rows.len() - idx,
    {
        let ghost pre = out.deep_view();
        let row = &rows[idx];
        if row.area_id != victim {
            let copy = StreetRow {
                id: row.id,
                area_id: row.area_id,
                name: clone_opt_string(&row.name),
                verified: row.verified,
            };
            let ghost cv = copy@;
            out.push(copy);
            proof {
                assert(cv == s[idx as int]);
                assert(out.deep_view() =~= pre.push(cv));
                assert forall|k: int| 0 <= k < out.deep_view().len() implies exists|m: int|
                    0 <= m < idx as int + 1 && #[trigger] out.deep_view()[k] == s[m] by {
                    if k < pre.len() {
                        let m = choose|m: int| 0 <= m < idx && pre[k] == s[m];
                        assert(out.deep_view()[k] == s[m]);
                    } else {
                        assert(out.deep_view()[k] == s[idx as int]);
                    }
                }
                assert forall|i: int, j: int| 0 <= i < j < out.deep_view().len()
                    implies out.deep_view()[i].id < out.deep_view()[j].id by {
                    if j < pre.len() {
                        assert(pre[i].id < pre[j].id);
                    } else {
                        let m = choose|m: int| 0 <= m < idx && pre[i] == s[m];
                        assert(s[m].id < s[idx as int].id);
                    }
                }
                assert forall|m: int|
                    0 <= m < idx as int + 1 && #[trigger] s[m].area_id != victim
                    implies street_in(out.deep_view(), s[m].area_id, s[m].id) by {
                    if m < idx {
                        let w = choose|w: int|
                            0 <= w < pre.len() && pre[w].id == s[m].id && pre[w].area_id
                                == s[m].area_id;
                        assert(out.deep_view()[w].id == s[m].id && out.deep_view()[w].area_id
                            == s[m].area_id);
                    } else {
                        assert(out.deep_view()[pre.len() as int].id == s[m].id);
                    }
                }
            }
        } else {
            proof {
                assert forall|m: int|
                    0 <= m < idx as int + 1 && #[trigger] s[m].area_id != victim
                    implies street_in(out.deep_view(), s[m].area_id, s[m].id) by {
                    if m < idx {
                        let w = choose|w: int|
                            0 <= w < out.deep_view().len() && out.deep_view()[w].id == s[m].id
                                && out.deep_view()[w].area_id == s[m].area_id;
                        assert(out.deep_view()[w].id == s[m].id);
                    }
                }
            }
        }
        proof {
            assert(s.take(idx as int + 1).drop_last() =~= s.take(idx as int));
            assert(s.take(idx as int + 1).last() == s[idx as int]);
            assert(out.deep_view() == streets_without_area(s.take(idx as int + 1), victim));
        }
        idx += 1;
    }
    proof {
        assert(s.take(s.len() as int) =~= s);
        assert forall|aid: i64, sid: i64|
            aid != victim implies (#[trigger] street_in(out.deep_view(), aid, sid) == street_in(
            s,
            aid,
            sid,
        )) by {
            if street_in(s, aid, sid) {
                let m = choose|m: int|
                    0 <= m < s.len() && s[m].id == sid && s[m].area_id == aid;
                assert(street_in(out.deep_view(), s[m].area_id, s[m].id));
            }
            if street_in(out.deep_view(), aid, sid) {
                let k = choose|k: int|
                    0 <= k < out.deep_view().len() && out.deep_view()[k].id == sid
                        && out.deep_view()[k].area_id == aid;
                let m = choose|m: int| 0 <= m < s.len() && out.deep_view()[k] == s[m];
                assert(s[m].id == sid && s[m].area_id == aid);
            }
        }
    }
    out
}

/// Rebuild the address table without the addresses of the given area.
#[verifier::loop_isolation(false)]
fn filter_addresses(rows: &Vec<Address>, victim: i64) -> (r: Vec<Address>)
    requires
        forall|i: int, j: int|
            0 <= i < j < rows.deep_view().len() ==> #[trigger] rows.deep_view()[i].id
                < #[trigger] rows.deep_view()[j].id,
    ensures
        r.deep_view() == addresses_without_area(rows.deep_view(), victim),
        forall|i: int, j: int|
            0 <= i < j < r.deep_view().len() ==> #[trigger] r.deep_view()[i].id
                < #[trigger] r.deep_view()[j].id,
        forall|k: int|
            0 <= k < r.deep_view().len() ==> exists|m: int|
                0 <= m < rows.deep_view().len() && #[trigger] r.deep_view()[k]
                    == rows.deep_view()[m],
        forall|k: int| 0 <= k < r.deep_view().len() ==> #[trigger] r.deep_view()[k].area_id != victim,
        forall|aid: i64, aid2: i64|
            aid != victim ==> (#[trigger] address_in(r.deep_view(), aid, aid2) == address_in(
                rows.deep_view(),
                aid,
                aid2,
            )),
{
    let ghost s = rows.deep_view();
    let mut out: Vec<Address> = Vec::new();
    let mut idx: usize = 0;
    proof {
        assert(s.take(0) =~= Seq::<AddressV>::empty());
    }
    while idx < rows.len()
        invariant
            idx <= rows.len(),
            out.deep_view() == addresses_without_area(s.take(idx as int), victim),
            forall|k: int|
                0 <= k < out.deep_view().len() ==> exists|m: int|
                    0 <= m < idx && #[trigger] out.deep_view()[k] == s[m],
            forall|k: int|
                0 <= k < out.deep_view().len() ==> #[trigger] out.deep_view()[k].area_id != victim,
            forall|i: int, j: int|
                0 <= i < j < out.deep_view().len() ==> out.deep_view()[i].id < out.deep_view()[j].id,
            forall|m: int|
                0 <= m < idx && #[trigger] s[m].area_id != victim ==> address_in(
                    out.deep_view(),
                    s[m].area_id,
                    s[m].id,
                ),
        decreases rows.len() - idx,
    {
        let ghost pre = out.deep_view();
        let row = &rows[idx];
        if row.area_id != victim {
            let copy = clone_address(row);
            let ghost cv = copy@;
            out.push(copy);
            proof {
                assert(cv == s[idx as int]);
                assert(out.deep_view() =~= pre.push(cv));
                assert forall|k: int| 0 <= k < out.deep_view().len() implies exists|m: int|
                    0 <= m < idx as int + 1 && #[trigger] out.deep_view()[k] == s[m] by {
                    if k < pre.len() {
                        let m = choose|m: int| 0 <= m < idx && pre[k] == s[m];
                        assert(out.deep_view()[k] == s[m]);
                    } else {
                        assert(out.deep_view()[k] == s[idx as int]);
                    }
                }
                assert forall|i: int, j: int| 0 <= i < j < out.deep_view().len()
                    implies out.deep_view()[i].id < out.deep_view()[j].id by {
                    if j < pre.len() {
                        assert(pre[i].id < pre[j].id);
                    } else {
                        let m = choose|m: int| 0 <= m < idx && pre[i] == s[m];
                        assert(s[m].id < s[idx as int].id);
                    }
                }
                assert forall|m: int|
                    0 <= m < idx as int + 1 && #[trigger] s[m].area_id != victim
                    implies address_in(out.deep_view(), s[m].area_id, s[m].id) by {
                    if m < idx {
                        let w = choose|w: int|
                            0 <= w < pre.len() && pre[w].id == s[m].id && pre[w].area_id
                                == s[m].area_id;
                        assert(out.deep_view()[w].id == s[m].id && out.deep_view()[w].area_id
                            == s[m].area_id);
                    } else {
                        assert(out.deep_view()[pre.len() as int].id == s[m].id);
                    }
                }
            }
        } else {
            proof {
                assert forall|m: int|
                    0 <= m < idx as int + 1 && #[trigger] s[m].area_id != victim
                    implies address_in(out.deep_view(), s[m].area_id, s[m].id) by {
                    if m < idx {
                        let w = choose|w: int|
                            0 <= w < out.deep_view().len() && out.deep_view()[w].id == s[m].id
                                && out.deep_view()[w].area_id == s[m].area_id;
                        assert(out.deep_view()[w].id == s[m].id);
                    }
                }
            }
        }
        proof {
            assert(s.take(idx as int + 1).drop_last() =~= s.take(idx as int));
            assert(s.take(idx as int + 1).last() == s[idx as int]);
            assert(out.deep_view() == addresses_without_area(s.take(idx as int + 1), victim));
        }
        idx += 1;
    }
    proof {
        assert(s.take(s.len() as int) =~= s);
        assert forall|aid: i64, aid2: i64|
            aid != victim implies (#[trigger] address_in(out.deep_view(), aid, aid2) == address_in(
            s,
            aid,
            aid2,
        )) by {
            if address_in(s, aid, aid2) {
                let m = choose|m: int|
                    0 <= m < s.len() && s[m].id == aid2 && s[m].area_id == aid;
                assert(address_in(out.deep_view(), s[m].area_id, s[m].id));
            }
            if address_in(out.deep_view(), aid, aid2) {
                let k = choose|k: int|
                    0 <= k < out.deep_view().len() && out.deep_view()[k].id == aid2
                        && out.deep_view()[k].area_id == aid;
                let m = choose|m: int| 0 <= m < s.len() && out.deep_view()[k] == s[m];
                assert(s[m].id == aid2 && s[m].area_id == aid);
            }
        }
    }
    out
}


/// Rebuild the team table without the teams of the given area.
#[verifier::loop_isolation(false)]
fn filter_teams(rows: &Vec<TeamRow>, victim: i64) -> (r: Vec<TeamRow>)
    requires
        forall|i: int, j: int|
            0 <= i < j < rows@.len() ==> #[trigger] rows@[i].id < #[trigger] rows@[j].id && (
            rows@[i].area_id == rows@[j].area_id ==> rows@[i].number != rows@[j].number),
    ensures
        r.deep_view() == teams_without_area(rows@, victim),
        forall|i: int, j: int|
            0 <= i < j < r@.len() ==> #[trigger] r@[i].id < #[trigger] r@[j].id && (r@[i].area_id
                == r@[j].area_id ==> r@[i].number != r@[j].number),
        forall|k: int|
            0 <= k < r@.len() ==> exists|m: int|
                0 <= m < rows@.len() && #[trigger] r@[k].id == rows@[m].id && r@[k].area_id
                    == rows@[m].area_id && r@[k].number == rows@[m].number,
        forall|k: int| 0 <= k < r@.len() ==> #[trigger] r@[k].area_id != victim,
        forall|aid: i64, tid: i64|
            aid != victim ==> (#[trigger] team_in(r@, aid, tid) == team_in(rows@, aid, tid)),
{
    let ghost s = rows@;
    let mut out: Vec<TeamRow> = Vec::new();
    let mut idx: usize = 0;
    proof {
        assert(s.take(0) =~= Seq::<TeamRow>::empty());
    }
    while idx < rows.len()
        invariant
            idx <= rows.len(),
            out.deep_view() == teams_without_area(s.take(idx as int), victim),
            forall|k: int|
                0 <= k < out@.len() ==> exists|m: int|
                    0 <= m < idx && #[trigger] out@[k].id == s[m].id && out@[k].area_id
                        == s[m].area_id && out@[k].number == s[m].number,
            forall|k: int| 0 <= k < out@.len() ==> #[trigger] out@[k].area_id != victim,
            forall|i: int, j: int|
                0 <= i < j < out@.len() ==> out@[i].id < out@[j].id && (out@[i].area_id
                    == out@[j].area_id ==> out@[i].number != out@[j].number),
            forall|m: int|
                0 <= m < idx && #[trigger] s[m].area_id != victim ==> team_in(
                    out@,
                    s[m].area_id,
                    s[m].id,
                ),
        decreases rows.len() - idx,
    {
        let ghost pre = out@;
        let row = rows[idx];
        if row.area_id != victim {
            out.push(row);
            proof {
                assert(out@ =~= pre.push(row));
                assert(out.deep_view() =~= pre.push(row));
                assert(row == s[idx as int]);
                assert forall|k: int| 0 <= k < out@.len() implies exists|m: int|
                    0 <= m < idx as int + 1 && #[trigger] out@[k].id == s[m].id && out@[k].area_id
                        == s[m].area_id && out@[k].number == s[m].number by {
                    if k < pre.len() {
                        let m = choose|m: int|
                            0 <= m < idx && pre[k].id == s[m].id && pre[k].area_id == s[m].area_id
                                && pre[k].number == s[m].number;
                        assert(out@[k].id == s[m].id);
                    } else {
                        assert(out@[k].id == s[idx as int].id);
                    }
                }
                assert forall|i: int, j: int| 0 <= i < j < out@.len() implies out@[i].id
                    < out@[j].id && (out@[i].area_id == out@[j].area_id ==> out@[i].number
                    != out@[j].number) by {
                    if j < pre.len() {
                        assert(pre[i].id < pre[j].id);
                    } else {
                        let m = choose|m: int|
                            0 <= m < idx && pre[i].id == s[m].id && pre[i].area_id == s[m].area_id
                                && pre[i].number == s[m].number;
                        assert(s[m].id < s[idx as int].id && (s[m].area_id == s[idx as int].area_id
                            ==> s[m].number != s[idx as int].number));
                    }
                }
                assert forall|m: int|
                    0 <= m < idx as int + 1 && #[trigger] s[m].area_id != victim implies team_in(
                    out@,
                    s[m].area_id,
                    s[m].id,
                ) by {
                    if m < idx {
                        let w = choose|w: int|
                            0 <= w < pre.len() && pre[w].id == s[m].id && pre[w].area_id
                                == s[m].area_id;
                        assert(out@[w].id == s[m].id && out@[w].area_id == s[m].area_id);
                    } else {
                        assert(out@[pre.len() as int].id == s[m].id);
                    }
                }
            }
        } else {
            proof {
                assert forall|m: int|
                    0 <= m < idx as int + 1 && #[trigger] s[m].area_id != victim implies team_in(
                    out@,
                    s[m].area_id,
                    s[m].id,
                ) by {
                    if m < idx {
                        let w = choose|w: int|
                            0 <= w < out@.len() && out@[w].id == s[m].id && out@[w].area_id
                                == s[m].area_id;
                        assert(out@[w].id == s[m].id);
                    }
                }
            }
        }
        proof {
            assert(s.take(idx as int + 1).drop_last() =~= s.take(idx as int));
            assert(s.take(idx as int + 1).last() == s[idx as int]);
            assert(out.deep_view() =~= out@);
            assert(out.deep_view() == teams_without_area(s.take(idx as int + 1), victim));
        }
        idx += 1;
    }
    proof {
        assert(s.take(s.len() as int) =~= s);
        assert forall|aid: i64, tid: i64|
            aid != victim implies (#[trigger] team_in(out@, aid, tid) == team_in(s, aid, tid)) by {
            if team_in(s, aid, tid) {
                let m = choose|m: int| 0 <= m < s.len() && s[m].id == tid && s[m].area_id == aid;
                assert(team_in(out@, s[m].area_id, s[m].id));
            }
            if team_in(out@, aid, tid) {
                let k = choose|k: int|
                    0 <= k < out@.len() && out@[k].id == tid && out@[k].area_id == aid;
                let m = choose|m: int|
                    0 <= m < s.len() && out@[k].id == s[m].id && out@[k].area_id == s[m].area_id
                        && out@[k].number == s[m].number;
                assert(s[m].id == tid && s[m].area_id == aid);
            }
        }
    }
    out
}

/// Rebuild the assignment table without the assignments of the given area.
#[verifier::loop_isolation(false)]
fn filter_assignments(rows: &Vec<AssignRow>, victim: i64) -> (r: Vec<AssignRow>)
    requires
        forall|i: int, j: int|
            0 <= i < j < rows@.len() ==> #[trigger] rows@[i].address_id
                != #[trigger] rows@[j].address_id,
    ensures
        r.deep_view() == assignments_without_area(rows@, victim),
        forall|i: int, j: int|
            0 <= i < j < r@.len() ==> #[trigger] r@[i].address_id != #[trigger] r@[j].address_id,
        forall|k: int|
            0 <= k < r@.len() ==> exists|m: int|
                0 <= m < rows@.len() && #[trigger] r@[k].team_id == rows@[m].team_id
                    && r@[k].address_id == rows@[m].address_id && r@[k].area_id == rows@[m].area_id,
        forall|k: int| 0 <= k < r@.len() ==> #[trigger] r@[k].area_id != victim,
{
    let ghost s = rows@;
    let mut out: Vec<AssignRow> = Vec::new();
    let mut idx: usize = 0;
    proof {
        assert(s.take(0) =~= Seq::<AssignRow>::empty());
    }
    while idx < rows.len()
        invariant
            idx <= rows.len(),
            out.deep_view() == assignments_without_area(s.take(idx as int), victim),
            forall|k: int|
                0 <= k < out@.len() ==> exists|m: int|
                    0 <= m < idx && #[trigger] out@[k].team_id == s[m].team_id
                        && out@[k].address_id == s[m].address_id && out@[k].area_id
                        == s[m].area_id,
            forall|k: int| 0 <= k < out@.len() ==> #[trigger] out@[k].area_id != victim,
            forall|i: int, j: int|
                0 <= i < j < out@.len() ==> out@[i].address_id != out@[j].address_id,
        decreases rows.len() - idx,
    {
        let ghost pre = out@;
        let row = rows[idx];
        if row.area_id != victim {
            out.push(row);
            proof {
                assert(out@ =~= pre.push(row));
                assert(out.deep_view() =~= pre.push(row));
                assert(row == s[idx as int]);
                assert forall|k: int| 0 <= k < out@.len() implies exists|m: int|
                    0 <= m < idx as int + 1 && #[trigger] out@[k].team_id == s[m].team_id
                        && out@[k].address_id == s[m].address_id && out@[k].area_id
                        == s[m].area_id by {
                    if k < pre.len() {
                        let m = choose|m: int|
                            0 <= m < idx && pre[k].team_id == s[m].team_id && pre[k].address_id
                                == s[m].address_id && pre[k].area_id == s[m].area_id;
                        assert(out@[k].team_id == s[m].team_id);
                    } else {
                        assert(out@[k].team_id == s[idx as int].team_id);
                    }
                }
                assert forall|i: int, j: int| 0 <= i < j < out@.len() implies out@[i].address_id
                    != out@[j].address_id by {
                    if j < pre.len() {
                        assert(pre[i].address_id != pre[j].address_id);
                    } else {
                        let m = choose|m: int|
                            0 <= m < idx && pre[i].team_id == s[m].team_id && pre[i].address_id
                                == s[m].address_id && pre[i].area_id == s[m].area_id;
                        assert(s[m].address_id != s[idx as int].address_id);
                    }
                }
            }
        }
        proof {
            assert(s.take(idx as int + 1).drop_last() =~= s.take(idx as int));
            assert(s.take(idx as int + 1).last() == s[idx as int]);
            assert(out.deep_view() =~= out@);
            assert(out.deep_view() == assignments_without_area(s.take(idx as int + 1), victim));
        }
        idx += 1;
    }
    proof {
        assert(s.take(s.len() as int) =~= s);
    }
    out
}


/// Whether the given street exists in the given area.
#[verifier::loop_isolation(false)]
fn street_in_exec(streets: &Vec<StreetRow>, area_id: i64, street_id: i64) -> (r: bool)
    ensures
        r == street_in(streets.deep_view(), area_id, street_id),
{
    let mut idx: usize = 0;
    while idx < streets.len()
        invariant
            idx <= streets.len(),
            forall|i: int|
                0 <= i < idx ==> !(#[trigger] streets.deep_view()[i].id == street_id
                    && streets.deep_view()[i].area_id == area_id),
        decreases streets.len() - idx,
    {
        let row = &streets[idx];
        if row.id == street_id && row.area_id == area_id {
            proof {
                assert(streets.deep_view()[idx as int].id == street_id
                    && streets.deep_view()[idx as int].area_id == area_id);
            }
            return true;
        }
        idx += 1;
    }
    false
}

/// Whether the given team exists in the given area.
#[verifier::loop_isolation(false)]
fn team_in_exec(teams: &Vec<TeamRow>, area_id: i64, team_id: i64) -> (r: bool)
    ensures
        r == team_in(teams@, area_id, team_id),
{
    let mut idx: usize = 0;
    while idx < teams.len()
        invariant
            idx <= teams.len(),
            forall|i: int|
                0 <= i < idx ==> !(#[trigger] teams@[i].id == team_id && teams@[i].area_id
                    == area_id),
        decreases teams.len() - idx,
    {
        let row = &teams[idx];
        if row.id == team_id && row.area_id == area_id {
            proof {
                assert(teams@[idx as int].id == team_id);
            }
            return true;
        }
        idx += 1;
    }
    false
}

/// Rebuild a vertex-list table, keeping only rows whose owning street
/// survives the removal of the given area.
#[verifier::loop_isolation(false)]
fn filter_polys_streets(rows: &Vec<PolyRow>, streets: &Vec<StreetRow>, victim: i64) -> (r: Vec<
    PolyRow,
>)
    requires
        poly_owners_distinct(rows.deep_view()),
    ensures
        r.deep_view() == polys_without_street_area(rows.deep_view(), streets.deep_view(), victim),
        poly_owners_distinct(r.deep_view()),
        forall|k: int|
            0 <= k < r.deep_view().len() ==> exists|m: int|
                0 <= m < rows.deep_view().len() && #[trigger] r.deep_view()[k]
                    == rows.deep_view()[m],
        forall|k: int|
            0 <= k < r.deep_view().len() ==> !street_in(
                streets.deep_view(),
                victim,
                (#[trigger] r.deep_view()[k]).owner_id,
            ),
{
    let ghost s = rows.deep_view();
    let ghost sv = streets.deep_view();
    let mut out: Vec<PolyRow> = Vec::new();
    let mut idx: usize = 0;
    proof {
        assert(s.take(0) =~= Seq::<PolyRowV>::empty());
    }
    while idx < rows.len()
        invariant
            idx <= rows.len(),
            out.deep_view() == polys_without_street_area(s.take(idx as int), sv, victim),
            forall|k: int|
                0 <= k < out.deep_view().len() ==> exists|m: int|
                    0 <= m < idx && #[trigger] out.deep_view()[k] == s[m],
            forall|k: int|
                0 <= k < out.deep_view().len() ==> !street_in(
                    sv,
                    victim,
                    (#[trigger] out.deep_view()[k]).owner_id,
                ),
            poly_owners_distinct(out.deep_view()),
        decreases rows.len() - idx,
    {
        let ghost pre = out.deep_view();
        let keep = !street_in_exec(streets, victim, rows[idx].owner_id);
        let row = &rows[idx];
        if keep {
            let copy = PolyRow { owner_id: row.owner_id, points: copy_points(&row.points) };
            let ghost cv = copy@;
            out.push(copy);
            proof {
                assert(cv == s[idx as int]);
                assert(out.deep_view() =~= pre.push(cv));
                assert forall|k: int| 0 <= k < out.deep_view().len() implies exists|m: int|
                    0 <= m < idx as int + 1 && #[trigger] out.deep_view()[k] == s[m] by {
                    if k < pre.len() {
                        let m = choose|m: int| 0 <= m < idx && pre[k] == s[m];
                        assert(out.deep_view()[k] == s[m]);
                    } else {
                        assert(out.deep_view()[k] == s[idx as int]);
                    }
                }
                assert forall|i: int, j: int| 0 <= i < j < out.deep_view().len()
                    implies #[trigger] out.deep_view()[i].owner_id
                    != #[trigger] out.deep_view()[j].owner_id by {
                    if j < pre.len() {
                        assert(pre[i].owner_id != pre[j].owner_id);
                    } else {
                        let m = choose|m: int| 0 <= m < idx && pre[i] == s[m];
                        assert(s[m].owner_id != s[idx as int].owner_id);
                    }
                }
            }
        }
        proof {
            assert(s.take(idx as int + 1).drop_last() =~= s.take(idx as int));
            assert(s.take(idx as int + 1).last() == s[idx as int]);
            assert(out.deep_view() == polys_without_street_area(
                s.take(idx as int + 1),
                sv,
                victim,
            ));
        }
        idx += 1;
    }
    proof {
        assert(s.take(s.len() as int) =~= s);
    }
    out
}

/// Rebuild a vertex-list table, keeping only rows whose owning team
/// survives the removal of the given area.
#[verifier::loop_isolation(false)]
fn filter_bounds_teams(rows: &Vec<PolyRow>, teams: &Vec<TeamRow>, victim: i64) -> (r: Vec<PolyRow>)
    requires
        poly_owners_distinct(rows.deep_view()),
    ensures
        r.deep_view() == bounds_without_team_area(rows.deep_view(), teams@, victim),
        poly_owners_distinct(r.deep_view()),
        forall|k: int|
            0 <= k < r.deep_view().len() ==> exists|m: int|
                0 <= m < rows.deep_view().len() && #[trigger] r.deep_view()[k]
                    == rows.deep_view()[m],
        forall|k: int|
            0 <= k < r.deep_view().len() ==> !team_in(
                teams@,
                victim,
                (#[trigger] r.deep_view()[k]).owner_id,
            ),
{
    let ghost s = rows.deep_view();
    let ghost tv = teams@;
    let mut out: Vec<PolyRow> = Vec::new();
    let mut idx: usize = 0;
    proof {
        assert(s.take(0) =~= Seq::<PolyRowV>::empty());
    }
    while idx < rows.len()
        invariant
            idx <= rows.len(),
            out.deep_view() == bounds_without_team_area(s.take(idx as int), tv, victim),
            forall|k: int|
                0 <= k < out.deep_view().len() ==> exists|m: int|
                    0 <= m < idx && #[trigger] out.deep_view()[k] == s[m],
            forall|k: int|
                0 <= k < out.deep_view().len() ==> !team_in(
                    tv,
                    victim,
                    (#[trigger] out.deep_view()[k]).owner_id,
                ),
            poly_owners_distinct(out.deep_view()),
        decreases rows.len() - idx,
    {
        let ghost pre = out.deep_view();
        let keep = !team_in_exec(teams, victim, rows[idx].owner_id);
        let row = &rows[idx];
        if keep {
            let copy = PolyRow { owner_id: row.owner_id, points: copy_points(&row.points) };
            let ghost cv = copy@;
            out.push(copy);
            proof {
                assert(cv == s[idx as int]);
                assert(out.deep_view() =~= pre.push(cv));
                assert forall|k: int| 0 <= k < out.deep_view().len() implies exists|m: int|
                    0 <= m < idx as int + 1 && #[trigger] out.deep_view()[k] == s[m] by {
                    if k < pre.len() {
                        let m = choose|m: int| 0 <= m < idx && pre[k] == s[m];
                        assert(out.deep_view()[k] == s[m]);
                    } else {
                        assert(out.deep_view()[k] == s[idx as int]);
                    }
                }
                assert forall|i: int, j: int| 0 <= i < j < out.deep_view().len()
                    implies #[trigger] out.deep_view()[i].owner_id
                    != #[trigger] out.deep_view()[j].owner_id by {
                    if j < pre.len() {
                        assert(pre[i].owner_id != pre[j].owner_id);
                    } else {
                        let m = choose|m: int| 0 <= m < idx && pre[i] == s[m];
                        assert(s[m].owner_id != s[idx as int].owner_id);
                    }
                }
            }
        }
        proof {
            assert(s.take(idx as int + 1).drop_last() =~= s.take(idx as int));
            assert(s.take(idx as int + 1).last() == s[idx as int]);
            assert(out.deep_view() == bounds_without_team_area(s.take(idx as int + 1), tv, victim));
        }
        idx += 1;
    }
    proof {
        assert(s.take(s.len() as int) =~= s);
    }
    out
}


impl WorkingStore {
    /// Delete the area with the given id, cascading to everything the
    /// area owns: its streets and their polylines, its addresses, its
    /// teams and their boundaries, and its assignments.  Deleting an
    /// absent area changes nothing.
    pub fn delete_area(&mut self, id: i64)
        requires
            old(self)@.wf(),
        ensures
            final(self)@.wf(),
            !final(self)@.has_area(id),
            forall|aid: i64|
                aid != id ==> (#[trigger] final(self)@.has_area(aid) == old(self)@.has_area(aid)),
            final(self)@.areas == areas_without(old(self)@.areas, id),
            final(self)@.streets == streets_without_area(old(self)@.streets, id),
            final(self)@.street_polylines == polys_without_street_area(
                old(self)@.street_polylines,
                old(self)@.streets,
                id,
            ),
            final(self)@.addresses == addresses_without_area(old(self)@.addresses, id),
            final(self)@.teams == teams_without_area(old(self)@.teams, id),
            final(self)@.assignments == assignments_without_area(old(self)@.assignments, id),
            final(self)@.team_bounds == bounds_without_team_area(
                old(self)@.team_bounds,
                old(self)@.teams,
                id,
            ),
            final(self)@.meta == old(self)@.meta,
    {
        proof {
            assert(self.teams.deep_view() =~= self.teams@);
            assert(self.assignments.deep_view() =~= self.assignments@);
        }
        let na = filter_areas(&self.areas, id);
        let ns = filter_streets(&self.streets, id);
        let np = filter_polys_streets(&self.street_polylines, &self.streets, id);
        let nad = filter_addresses(&self.addresses, id);
        let nt = filter_teams(&self.teams, id);
        let nasg = filter_assignments(&self.assignments, id);
        let nb = filter_bounds_teams(&self.team_bounds, &self.teams, id);
        proof {
            assert(nt.deep_view() =~= nt@);
            assert(nasg.deep_view() =~= nasg@);
        }
        let ghost nav = na.deep_view();
        let ghost nsv = ns.deep_view();
        let ghost npv = np.deep_view();
        let ghost nadv = nad.deep_view();
        let ghost ntv = nt.deep_view();
        let ghost nasgv = nasg.deep_view();
        let ghost nbv = nb.deep_view();
        let ghost ov = old(self)@;
        self.areas = na;
        self.streets = ns;
        self.street_polylines = np;
        self.addresses = nad;
        self.teams = nt;
        self.assignments = nasg;
        self.team_bounds = nb;
        proof {
            assert(self@.areas == nav && self@.streets == nsv && self@.street_polylines == npv
                && self@.addresses == nadv && self@.teams == ntv && self@.assignments == nasgv
                && self@.team_bounds == nbv && self@.meta == ov.meta);
            // streets: every surviving street still has its area.
            assert forall|k: int|
                0 <= k < nsv.len() implies (#[trigger] nsv[k]).id >= 1 && has_area_in(
                nav,
                nsv[k].area_id,
            ) by {
                let m = choose|m: int| 0 <= m < ov.streets.len() && nsv[k] == ov.streets[m];
                assert(ov.streets[m].id >= 1 && has_area_in(ov.areas, ov.streets[m].area_id));
            }
            assert(streets_ok(nav, nsv));
            // addresses: area and street references survive.
            assert forall|k: int|
                0 <= k < nadv.len() implies {
                let a = #[trigger] nadv[k];
                &&& a.id >= 1
                &&& has_area_in(nav, a.area_id)
                &&& (a.assigned_street_id matches Some(sid) ==> street_in(nsv, a.area_id, sid))
            } by {
                let m = choose|m: int| 0 <= m < ov.addresses.len() && nadv[k] == ov.addresses[m];
                assert(ov.addresses[m].id >= 1 && has_area_in(ov.areas, ov.addresses[m].area_id));
                if ov.addresses[m].assigned_street_id is Some {
                    assert(street_in(
                        ov.streets,
                        ov.addresses[m].area_id,
                        ov.addresses[m].assigned_street_id->0,
                    ));
                }
            }
            assert(addresses_ok(nav, nsv, nadv));
            // teams: the owning area survives.
            assert forall|k: int|
                0 <= k < ntv.len() implies (#[trigger] ntv[k]).id >= 1 && has_area_in(
                nav,
                ntv[k].area_id,
            ) by {
                let m = choose|m: int|
                    0 <= m < ov.teams.len() && ntv[k].id == ov.teams[m].id && ntv[k].area_id
                        == ov.teams[m].area_id && ntv[k].number == ov.teams[m].number;
                assert(ov.teams[m].id >= 1 && has_area_in(ov.areas, ov.teams[m].area_id));
            }
            assert(teams_ok(nav, ntv));
            // assignments: team and address references survive.
            assert forall|k: int|
                0 <= k < nasgv.len() implies {
                let a = #[trigger] nasgv[k];
                &&& team_in(ntv, a.area_id, a.team_id)
                &&& address_in(nadv, a.area_id, a.address_id)
            } by {
                let m = choose|m: int|
                    0 <= m < ov.assignments.len() && nasgv[k].team_id == ov.assignments[m].team_id
                        && nasgv[k].address_id == ov.assignments[m].address_id
                        && nasgv[k].area_id == ov.assignments[m].area_id;
                assert(team_in(ov.teams, ov.assignments[m].area_id, ov.assignments[m].team_id));
                assert(address_in(
                    ov.addresses,
                    ov.assignments[m].area_id,
                    ov.assignments[m].address_id,
                ));
            }
            assert(assignments_ok(ntv, nadv, nasgv));
            // polylines: the owning street survives.
            assert forall|k: int|
                0 <= k < npv.len() implies {
                let p = #[trigger] npv[k];
                p.points.len() >= 1 && has_street_in(nsv, p.owner_id)
            } by {
                let m = choose|m: int|
                    0 <= m < ov.street_polylines.len() && npv[k] == ov.street_polylines[m];
                assert(ov.street_polylines[m].points.len() >= 1 && has_street_in(
                    ov.streets,
                    ov.street_polylines[m].owner_id,
                ));
                let w = choose|w: int|
                    0 <= w < ov.streets.len() && #[trigger] ov.streets[w].id == npv[k].owner_id;
                assert(ov.streets[w].area_id != id) by {
                    if ov.streets[w].area_id == id {
                        assert(street_in(ov.streets, id, npv[k].owner_id));
                    }
                }
                assert(street_in(ov.streets, ov.streets[w].area_id, npv[k].owner_id));
                assert(street_in(nsv, ov.streets[w].area_id, npv[k].owner_id));
                let w2 = choose|w2: int|
                    0 <= w2 < nsv.len() && #[trigger] nsv[w2].id == npv[k].owner_id
                        && nsv[w2].area_id == ov.streets[w].area_id;
                assert(has_street_in(nsv, npv[k].owner_id));
            }
            assert(polylines_ok(nsv, npv));
            // boundaries: the owning team survives.
            assert forall|k: int|
                0 <= k < nbv.len() implies {
                let p = #[trigger] nbv[k];
                p.points.len() >= 1 && has_team_in(ntv, p.owner_id)
            } by {
                let m = choose|m: int|
                    0 <= m < ov.team_bounds.len() && nbv[k] == ov.team_bounds[m];
                assert(ov.team_bounds[m].points.len() >= 1 && has_team_in(
                    ov.teams,
                    ov.team_bounds[m].owner_id,
                ));
                let w = choose|w: int|
                    0 <= w < ov.teams.len() && #[trigger] ov.teams[w].id == nbv[k].owner_id;
                assert(ov.teams[w].area_id != id) by {
                    if ov.teams[w].area_id == id {
                        assert(team_in(ov.teams, id, nbv[k].owner_id));
                    }
                }
                assert(team_in(ov.teams, ov.teams[w].area_id, nbv[k].owner_id));
                assert(team_in(ntv, ov.teams[w].area_id, nbv[k].owner_id));
                let w2 = choose|w2: int|
                    0 <= w2 < ntv.len() && #[trigger] ntv[w2].id == nbv[k].owner_id
                        && ntv[w2].area_id == ov.teams[w].area_id;
                assert(has_team_in(ntv, nbv[k].owner_id));
            }
            assert(bounds_ok(ntv, nbv));
            assert(self@.wf());
        }
    }
}


impl WorkingStore {
    /// Delete the street with the given id in the given area, together
    /// with its drawn polyline.  Fails with `ForeignKey` while any
    /// address is still assigned to the street.  Deleting an absent
    /// street changes nothing.
    #[verifier::loop_isolation(false)]
    pub fn delete_street(&mut self, area_id: i64, street_id: i64) -> (r: Result<(), StoreError>)
        requires
            old(self)@.wf(),
        ensures
            final(self)@.wf(),
            match r {
                Ok(_) => {
                    &&& !final(self)@.street_in_area(area_id, street_id)
                    &&& poly_lookup(final(self)@.street_polylines, street_id)
                        == poly_lookup(old(self)@.street_polylines, street_id)
                        || poly_lookup(final(self)@.street_polylines, street_id) is None
                    &&& (match old(self)@.street_in_area(area_id, street_id) {
                        true => {
                            &&& (exists|i: int|
                                0 <= i < old(self)@.streets.len()
                                    && #[trigger] old(self)@.streets[i].id == street_id
                                    && old(self)@.streets[i].area_id == area_id
                                    && final(self)@.streets == old(self)@.streets.remove(i))
                            &&& poly_lookup(final(self)@.street_polylines, street_id) is None
                            &&& (forall|o: i64|
                                o != street_id ==> #[trigger] poly_lookup(
                                    final(self)@.street_polylines,
                                    o,
                                ) == poly_lookup(old(self)@.street_polylines, o))
                            &&& final(self)@ == old(self)@.with_streets(
                                final(self)@.streets,
                            ).with_street_polylines(final(self)@.street_polylines)
                        },
                        false => final(self)@ == old(self)@,
                    })
                    &&& (forall|k: int|
                        0 <= k < old(self)@.addresses.len()
                            ==> #[trigger] old(self)@.addresses[k].assigned_street_id != Some(
                            street_id,
                        ))
                },
                Err(e) => {
                    &&& e == StoreError::ForeignKey
                    &&& final(self)@ == old(self)@
                    &&& exists|k: int|
                        0 <= k < old(self)@.addresses.len()
                            && #[trigger] old(self)@.addresses[k].assigned_street_id == Some(
                            street_id,
                        )
                },
            },
    {
        // Refuse while an address still references the street.
        let mut aidx: usize = 0;
        while aidx < self.addresses.len()
            invariant
                *self == *old(self),
                aidx <= self.addresses.len(),
                forall|k: int|
                    0 <= k < aidx ==> #[trigger] self@.addresses[k].assigned_street_id != Some(
                        street_id,
                    ),
            decreases self.addresses.len() - aidx,
        {
            match self.addresses[aidx].assigned_street_id {
                Some(sid) => {
                    if sid == street_id {
                        proof {
                            assert(self@.addresses[aidx as int].assigned_street_id == Some(
                                street_id,
                            ));
                        }
                        return Err(StoreError::ForeignKey);
                    }
                },
                None => {},
            }
            aidx += 1;
        }
        let idx = match self.street_idx(area_id, street_id) {
            Some(idx) => idx,
            None => {
                return Ok(());
            },
        };
        let ghost ostreets = self@.streets;
        self.streets.remove(idx);
        poly_remove(&mut self.street_polylines, street_id);
        proof {
            let sv = self@.streets;
            assert(sv =~= ostreets.remove(idx as int));
            assert(self@ =~~= old(self)@.with_streets(sv).with_street_polylines(
                self@.street_polylines,
            ));
            assert forall|k: int|
                0 <= k < sv.len() implies #[trigger] sv[k] == (if k < idx {
                ostreets[k]
            } else {
                ostreets[k + 1]
            }) by {}
            assert forall|i2: int, j2: int| 0 <= i2 < j2 < sv.len() implies sv[i2].id
                < sv[j2].id by {
                let oi = if i2 < idx as int {
                    i2
                } else {
                    i2 + 1
                };
                let oj = if j2 < idx as int {
                    j2
                } else {
                    j2 + 1
                };
                assert(ostreets[oi].id < ostreets[oj].id);
            }
            assert forall|k: int|
                0 <= k < sv.len() implies (#[trigger] sv[k]).id >= 1 && has_area_in(
                self@.areas,
                sv[k].area_id,
            ) by {
                let o = if k < idx as int {
                    k
                } else {
                    k + 1
                };
                assert(ostreets[o].id >= 1 && has_area_in(self@.areas, ostreets[o].area_id));
            }
            assert(streets_ok(self@.areas, sv));
            // No street with this id remains: ids are unique.
            assert forall|k: int| 0 <= k < sv.len() implies #[trigger] sv[k].id != street_id by {
                if k < idx as int {
                    assert(ostreets[k].id < ostreets[idx as int].id);
                } else {
                    assert(ostreets[idx as int].id < ostreets[k + 1].id);
                }
            }
            // Addresses never referenced the street, so their street
            // references survive the removal.
            assert forall|k: int|
                0 <= k < self@.addresses.len() implies {
                let a = #[trigger] self@.addresses[k];
                &&& a.id >= 1
                &&& has_area_in(self@.areas, a.area_id)
                &&& (a.assigned_street_id matches Some(sid) ==> street_in(sv, a.area_id, sid))
            } by {
                assert(self@.addresses[k].id >= 1 && has_area_in(
                    self@.areas,
                    self@.addresses[k].area_id,
                ));
                if self@.addresses[k].assigned_street_id is Some {
                    let sid = self@.addresses[k].assigned_street_id->0;
                    assert(sid != street_id);
                    assert(street_in(ostreets, self@.addresses[k].area_id, sid));
                    let w = choose|w: int|
                        0 <= w < ostreets.len() && #[trigger] ostreets[w].id == sid
                            && ostreets[w].area_id == self@.addresses[k].area_id;
                    assert(w != idx);
                    if w < idx as int {
                        assert(sv[w].id == sid && sv[w].area_id == self@.addresses[k].area_id);
                    } else {
                        assert(sv[w - 1].id == sid && sv[w - 1].area_id
                            == self@.addresses[k].area_id);
                    }
                }
            }
            assert(addresses_ok(self@.areas, sv, self@.addresses));
            // Surviving polylines belong to surviving streets.
            assert forall|k: int|
                0 <= k < self@.street_polylines.len() implies {
                let p = #[trigger] self@.street_polylines[k];
                p.points.len() >= 1 && has_street_in(sv, p.owner_id)
            } by {
                let j = choose|j: int|
                    0 <= j < old(self)@.street_polylines.len() && self@.street_polylines[k] == old(
                        self,
                    )@.street_polylines[j];
                assert(old(self)@.street_polylines[j].points.len() >= 1 && has_street_in(
                    ostreets,
                    old(self)@.street_polylines[j].owner_id,
                ));
                let owner = self@.street_polylines[k].owner_id;
                assert(owner != street_id) by {
                    lemma_poly_lookup_unique(self@.street_polylines, street_id);
                    if owner == street_id {
                        assert(poly_lookup(self@.street_polylines, street_id) == Some(
                            self@.street_polylines[k].points,
                        ));
                    }
                }
                let w = choose|w: int|
                    0 <= w < ostreets.len() && #[trigger] ostreets[w].id == owner;
                assert(w != idx);
                if w < idx as int {
                    assert(sv[w].id == owner);
                } else {
                    assert(sv[w - 1].id == owner);
                }
            }
            assert(polylines_ok(sv, self@.street_polylines));
            assert(self@.wf());
            assert(ostreets[idx as int].id == street_id);
            if self@.street_in_area(area_id, street_id) {
                let w = choose|w: int|
                    0 <= w < sv.len() && #[trigger] sv[w].id == street_id && sv[w].area_id
                        == area_id;
                assert(false);
            }
        }
        Ok(())
    }
}


impl WorkingStore {
    /// Assemble a store from raw tables, as read back from a snapshot.
    pub(crate) fn from_tables(
        meta: Vec<MetaRow>,
        areas: Vec<AreaRow>,
        streets: Vec<StreetRow>,
        street_polylines: Vec<PolyRow>,
        addresses: Vec<Address>,
        teams: Vec<TeamRow>,
        assignments: Vec<AssignRow>,
        team_bounds: Vec<PolyRow>,
    ) -> (s: WorkingStore)
        ensures
            s@ == (StoreView {
                meta: meta.deep_view(),
                areas: areas.deep_view(),
                streets: streets.deep_view(),
                street_polylines: street_polylines.deep_view(),
                addresses: addresses.deep_view(),
                teams: teams.deep_view(),
                assignments: assignments.deep_view(),
                team_bounds: team_bounds.deep_view(),
            }),
    {
        let s = WorkingStore {
            meta,
            areas,
            streets,
            street_polylines,
            addresses,
            teams,
            assignments,
            team_bounds,
        };
        proof {
            assert(s@ =~~= (StoreView {
                meta: s.meta.deep_view(),
                areas: s.areas.deep_view(),
                streets: s.streets.deep_view(),
                street_polylines: s.street_polylines.deep_view(),
                addresses: s.addresses.deep_view(),
                teams: s.teams.deep_view(),
                assignments: s.assignments.deep_view(),
                team_bounds: s.team_bounds.deep_view(),
            }));
        }
        s
    }

    /// The metadata table.
    pub(crate) fn meta_rows(&self) -> (r: &Vec<MetaRow>)
        ensures
            r.deep_view() == self@.meta,
    {
        &self.meta
    }

    /// The area table.
    pub(crate) fn area_rows(&self) -> (r: &Vec<AreaRow>)
        ensures
            r.deep_view() == self@.areas,
    {
        &self.areas
    }

    /// The street table.
    pub(crate) fn street_rows(&self) -> (r: &Vec<StreetRow>)
        ensures
            r.deep_view() == self@.streets,
    {
        &self.streets
    }

    /// The street-polyline table.
    pub(crate) fn street_polyline_rows(&self) -> (r: &Vec<PolyRow>)
        ensures
            r.deep_view() == self@.street_polylines,
    {
        &self.street_polylines
    }

    /// The address table.
    pub(crate) fn address_rows(&self) -> (r: &Vec<Address>)
        ensures
            r.deep_view() == self@.addresses,
    {
        &self.addresses
    }

    /// The team table.
    pub(crate) fn team_rows(&self) -> (r: &Vec<TeamRow>)
        ensures
            r.deep_view() == self@.teams,
    {
        &self.teams
    }

    /// The assignment table.
    pub(crate) fn assignment_rows(&self) -> (r: &Vec<AssignRow>)
        ensures
            r.deep_view() == self@.assignments,
    {
        &self.assignments
    }

    /// The team-boundary table.
    pub(crate) fn team_bound_rows(&self) -> (r: &Vec<PolyRow>)
        ensures
            r.deep_view() == self@.team_bounds,
    {
        &self.team_bounds
    }

    /// Decide the store's well-formedness, exactly.
    pub fn check_wf(&self) -> (r: bool)
        ensures
            r == self@.wf(),
    {
        proof {
            assert(self.teams.deep_view() =~= self.teams@);
            assert(self.assignments.deep_view() =~= self.assignments@);
        }
        let c1 = check_areas(&self.areas);
        let c2 = check_streets(&self.areas, &self.streets);
        let c3 = check_addresses(&self.areas, &self.streets, &self.addresses);
        let c4 = check_teams(&self.areas, &self.teams);
        let c5 = check_assignments(&self.teams, &self.addresses, &self.assignments);
        let c6 = check_polylines(&self.streets, &self.street_polylines);
        let c7 = check_bounds(&self.teams, &self.team_bounds);
        let c8 = check_meta(&self.meta);
        c1 && c2 && c3 && c4 && c5 && c6 && c7 && c8
    }
}

/// Decide `areas_ok`.
#[verifier::loop_isolation(false)]
fn check_areas(rows: &Vec<AreaRow>) -> (r: bool)
    ensures
        r == areas_ok(rows.deep_view()),
{
    let ghost s = rows.deep_view();
    let mut i: usize = 0;
    while i < rows.len()
        invariant
            0 <= i <= rows.len(),
            forall|k: int| 0 <= k < i ==> (#[trigger] s[k]).id >= 1,
            forall|k: int, j: int| 0 <= k < j < i ==> s[k].id < s[j].id,
        decreases rows.len() - i,
    {
        if rows[i].id < 1 {
            proof {
                assert(!areas_ok(s)) by {
                    if areas_ok(s) {
                        assert((s[i as int]).id >= 1);
                    }
                }
            }
            return false;
        }
        if i > 0 && rows[i - 1].id >= rows[i].id {
            proof {
                assert(!areas_ok(s)) by {
                    if areas_ok(s) {
                        assert(s[i as int - 1].id < s[i as int].id);
                    }
                }
            }
            return false;
        }
        proof {
            assert forall|k: int, j: int| 0 <= k < j < i + 1 implies s[k].id < s[j].id by {
                if j == i {
                    if k < i - 1 {
                        assert(s[k].id < s[i - 1].id);
                    }
                }
            }
        }
        i += 1;
    }
    true
}

/// Decide `streets_ok`.
#[verifier::loop_isolation(false)]
fn check_streets(areas: &Vec<AreaRow>, rows: &Vec<StreetRow>) -> (r: bool)
    ensures
        r == streets_ok(areas.deep_view(), rows.deep_view()),
{
    let ghost av = areas.deep_view();
    let ghost s = rows.deep_view();
    let mut i: usize = 0;
    while i < rows.len()
        invariant
            0 <= i <= rows.len(),
            forall|k: int|
                0 <= k < i ==> (#[trigger] s[k]).id >= 1 && has_area_in(av, s[k].area_id),
            forall|k: int, j: int| 0 <= k < j < i ==> s[k].id < s[j].id,
        decreases rows.len() - i,
    {
        if rows[i].id < 1 {
            proof {
                assert(!streets_ok(av, s)) by {
                    if streets_ok(av, s) {
                        assert((s[i as int]).id >= 1);
                    }
                }
            }
            return false;
        }
        if i > 0 && rows[i - 1].id >= rows[i].id {
            proof {
                assert(!streets_ok(av, s)) by {
                    if streets_ok(av, s) {
                        assert(s[i as int - 1].id < s[i as int].id);
                    }
                }
            }
            return false;
        }
        if !area_in_exec(areas, rows[i].area_id) {
            proof {
                assert(!streets_ok(av, s)) by {
                    if streets_ok(av, s) {
                        assert((s[i as int]).id >= 1 && has_area_in(av, s[i as int].area_id));
                    }
                }
            }
            return false;
        }
        proof {
            assert forall|k: int, j: int| 0 <= k < j < i + 1 implies s[k].id < s[j].id by {
                if j == i {
                    if k < i - 1 {
                        assert(s[k].id < s[i - 1].id);
                    }
                }
            }
        }
        i += 1;
    }
    true
}

/// Whether an area with the given id exists.
#[verifier::loop_isolation(false)]
fn area_in_exec(areas: &Vec<AreaRow>, id: i64) -> (r: bool)
    ensures
        r == has_area_in(areas.deep_view(), id),
{
    let mut i: usize = 0;
    while i < areas.len()
        invariant
            0 <= i <= areas.len(),
            forall|k: int| 0 <= k < i ==> #[trigger] areas.deep_view()[k].id != id,
        decreases areas.len() - i,
    {
        if areas[i].id == id {
            proof {
                assert(areas.deep_view()[i as int].id == id);
            }
            return true;
        }
        i += 1;
    }
    false
}

/// Decide `addresses_ok`.
#[verifier::loop_isolation(false)]
fn check_addresses(areas: &Vec<AreaRow>, streets: &Vec<StreetRow>, rows: &Vec<Address>) -> (r: bool)
    ensures
        r == addresses_ok(areas.deep_view(), streets.deep_view(), rows.deep_view()),
{
    let ghost av = areas.deep_view();
    let ghost sv = streets.deep_view();
    let ghost s = rows.deep_view();
    let mut i: usize = 0;
    while i < rows.len()
        invariant
            0 <= i <= rows.len(),
            forall|k: int|
                0 <= k < i ==> {
                    let a = #[trigger] s[k];
                    &&& a.id >= 1
                    &&& has_area_in(av, a.area_id)
                    &&& (a.assigned_street_id matches Some(sid) ==> street_in(sv, a.area_id, sid))
                },
            forall|k: int, j: int| 0 <= k < j < i ==> s[k].id < s[j].id,
        decreases rows.len() - i,
    {
        if rows[i].id < 1 {
            proof {
                assert(!addresses_ok(av, sv, s)) by {
                    if addresses_ok(av, sv, s) {
                        assert((s[i as int]).id >= 1);
                    }
                }
            }
            return false;
        }
        if i > 0 && rows[i - 1].id >= rows[i].id {
            proof {
                assert(!addresses_ok(av, sv, s)) by {
                    if addresses_ok(av, sv, s) {
                        assert(s[i as int - 1].id < s[i as int].id);
                    }
                }
            }
            return false;
        }
        if !area_in_exec(areas, rows[i].area_id) {
            proof {
                assert(!addresses_ok(av, sv, s)) by {
                    if addresses_ok(av, sv, s) {
                        let a = s[i as int];
                        assert(a.id >= 1 && has_area_in(av, a.area_id));
                    }
                }
            }
            return false;
        }
        match rows[i].assigned_street_id {
            Some(sid) => {
                if !street_in_exec(streets, rows[i].area_id, sid) {
                    proof {
                        assert(s[i as int].assigned_street_id == Some(sid));
                        assert(!addresses_ok(av, sv, s)) by {
                            if addresses_ok(av, sv, s) {
                                let a = s[i as int];
                                assert(a.id >= 1 && has_area_in(av, a.area_id));
                                assert(street_in(sv, a.area_id, sid));
                            }
                        }
                    }
                    return false;
                }
            },
            None => {},
        }
        proof {
            assert forall|k: int, j: int| 0 <= k < j < i + 1 implies s[k].id < s[j].id by {
                if j == i {
                    if k < i - 1 {
                        assert(s[k].id < s[i - 1].id);
                    }
                }
            }
        }
        i += 1;
    }
    true
}

/// Decide `teams_ok`.
#[verifier::loop_isolation(false)]
fn check_teams(areas: &Vec<AreaRow>, rows: &Vec<TeamRow>) -> (r: bool)
    ensures
        r == teams_ok(areas.deep_view(), rows@),
{
    let ghost av = areas.deep_view();
    let ghost s = rows@;
    proof {
        assert(rows.deep_view() =~= rows@);
    }
    let mut i: usize = 0;
    while i < rows.len()
        invariant
            0 <= i <= rows.len(),
            forall|k: int|
                0 <= k < i ==> (#[trigger] s[k]).id >= 1 && has_area_in(av, s[k].area_id),
            forall|k: int, j: int|
                0 <= k < j < i ==> s[k].id < s[j].id && (s[k].area_id == s[j].area_id ==> s[k].number
                    != s[j].number),
        decreases rows.len() - i,
    {
        if rows[i].id < 1 {
            proof {
                assert(!teams_ok(av, s)) by {
                    if teams_ok(av, s) {
                        assert((s[i as int]).id >= 1);
                    }
                }
            }
            return false;
        }
        if i > 0 && rows[i - 1].id >= rows[i].id {
            proof {
                assert(!teams_ok(av, s)) by {
                    if teams_ok(av, s) {
                        assert(s[i as int - 1].id < s[i as int].id);
                    }
                }
            }
            return false;
        }
        if !area_in_exec(areas, rows[i].area_id) {
            proof {
                assert(!teams_ok(av, s)) by {
                    if teams_ok(av, s) {
                        assert((s[i as int]).id >= 1 && has_area_in(av, s[i as int].area_id));
                    }
                }
            }
            return false;
        }
        let mut j: usize = 0;
        while j < i
            invariant
                0 <= j <= i < rows.len(),
                forall|k: int|
                    0 <= k < j ==> (s[k].area_id == s[i as int].area_id ==> #[trigger] s[k].number
                        != s[i as int].number),
            decreases i - j,
        {
            if rows[j].area_id == rows[i].area_id && rows[j].number == rows[i].number {
                proof {
                    assert(!teams_ok(av, s)) by {
                        if teams_ok(av, s) {
                            assert(s[j as int].id < s[i as int].id && (s[j as int].area_id
                                == s[i as int].area_id ==> s[j as int].number
                                != s[i as int].number));
                        }
                    }
                }
                return false;
            }
            j += 1;
        }
        proof {
            assert forall|k: int, j2: int| 0 <= k < j2 < i + 1 implies s[k].id < s[j2].id && (
            s[k].area_id == s[j2].area_id ==> s[k].number != s[j2].number) by {
                if j2 == i {
                    if k < i - 1 {
                        assert(s[k].id < s[i - 1].id);
                    }
                }
            }
        }
        i += 1;
    }
    true
}

/// Decide `assignments_ok`.
#[verifier::loop_isolation(false)]
fn check_assignments(teams: &Vec<TeamRow>, addresses: &Vec<Address>, rows: &Vec<AssignRow>) -> (r:
    bool)
    ensures
        r == assignments_ok(teams@, addresses.deep_view(), rows@),
{
    let ghost tv = teams@;
    let ghost adv = addresses.deep_view();
    let ghost s = rows@;
    proof {
        assert(rows.deep_view() =~= rows@);
        assert(teams.deep_view() =~= teams@);
    }
    let mut i: usize = 0;
    while i < rows.len()
        invariant
            0 <= i <= rows.len(),
            forall|k: int|
                0 <= k < i ==> {
                    let a = #[trigger] s[k];
                    &&& team_in(tv, a.area_id, a.team_id)
                    &&& address_in(adv, a.area_id, a.address_id)
                },
            forall|k: int, j: int| 0 <= k < j < i ==> s[k].address_id != s[j].address_id,
        decreases rows.len() - i,
    {
        if !team_in_exec(teams, rows[i].area_id, rows[i].team_id) {
            proof {
                assert(!assignments_ok(tv, adv, s)) by {
                    if assignments_ok(tv, adv, s) {
                        let a = s[i as int];
                        assert(team_in(tv, a.area_id, a.team_id));
                    }
                }
            }
            return false;
        }
        if !address_in_exec(addresses, rows[i].area_id, rows[i].address_id) {
            proof {
                assert(!assignments_ok(tv, adv, s)) by {
                    if assignments_ok(tv, adv, s) {
                        let a = s[i as int];
                        assert(team_in(tv, a.area_id, a.team_id) && address_in(
                            adv,
                            a.area_id,
                            a.address_id,
                        ));
                    }
                }
            }
            return false;
        }
        let mut j: usize = 0;
        while j < i
            invariant
                0 <= j <= i < rows.len(),
                forall|k: int| 0 <= k < j ==> #[trigger] s[k].address_id != s[i as int].address_id,
            decreases i - j,
        {
            if rows[j].address_id == rows[i].address_id {
                proof {
                    assert(!assignments_ok(tv, adv, s)) by {
                        if assignments_ok(tv, adv, s) {
                            assert(s[j as int].address_id != s[i as int].address_id);
                        }
                    }
                }
                return false;
            }
            j += 1;
        }
        i += 1;
    }
    true
}

/// Whether an address with the given id exists in the given area.
#[verifier::loop_isolation(false)]
fn address_in_exec(addresses: &Vec<Address>, area_id: i64, address_id: i64) -> (r: bool)
    ensures
        r == address_in(addresses.deep_view(), area_id, address_id),
{
    let mut i: usize = 0;
    while i < addresses.len()
        invariant
            0 <= i <= addresses.len(),
            forall|k: int|
                0 <= k < i ==> !(#[trigger] addresses.deep_view()[k].id == address_id
                    && addresses.deep_view()[k].area_id == area_id),
        decreases addresses.len() - i,
    {
        if addresses[i].id == address_id && addresses[i].area_id == area_id {
            proof {
                assert(addresses.deep_view()[i as int].id == address_id);
            }
            return true;
        }
        i += 1;
    }
    false
}

/// Decide `polylines_ok`.
#[verifier::loop_isolation(false)]
fn check_polylines(streets: &Vec<StreetRow>, rows: &Vec<PolyRow>) -> (r: bool)
    ensures
        r == polylines_ok(streets.deep_view(), rows.deep_view()),
{
    let ghost sv = streets.deep_view();
    let ghost s = rows.deep_view();
    let mut i: usize = 0;
    while i < rows.len()
        invariant
            0 <= i <= rows.len(),
            forall|k: int|
                0 <= k < i ==> (#[trigger] s[k]).points.len() >= 1 && has_street_in(
                    sv,
                    s[k].owner_id,
                ),
            forall|k: int, j: int| 0 <= k < j < i ==> s[k].owner_id != s[j].owner_id,
        decreases rows.len() - i,
    {
        if rows[i].points.len() == 0 {
            proof {
                assert(s[i as int].points.len() == 0);
                assert(!polylines_ok(sv, s)) by {
                    if polylines_ok(sv, s) {
                        assert((s[i as int]).points.len() >= 1);
                    }
                }
            }
            return false;
        }
        if !street_any_exec(streets, rows[i].owner_id) {
            proof {
                assert(!polylines_ok(sv, s)) by {
                    if polylines_ok(sv, s) {
                        let p = s[i as int];
                        assert(p.points.len() >= 1 && has_street_in(sv, p.owner_id));
                    }
                }
            }
            return false;
        }
        let mut j: usize = 0;
        while j < i
            invariant
                0 <= j <= i < rows.len(),
                forall|k: int| 0 <= k < j ==> #[trigger] s[k].owner_id != s[i as int].owner_id,
            decreases i - j,
        {
            if rows[j].owner_id == rows[i].owner_id {
                proof {
                    assert(!polylines_ok(sv, s)) by {
                        if polylines_ok(sv, s) {
                            assert(s[j as int].owner_id != s[i as int].owner_id);
                        }
                    }
                }
                return false;
            }
            j += 1;
        }
        i += 1;
    }
    true
}

/// Whether a street with the given id exists in any area.
#[verifier::loop_isolation(false)]
fn street_any_exec(streets: &Vec<StreetRow>, street_id: i64) -> (r: bool)
    ensures
        r == has_street_in(streets.deep_view(), street_id),
{
    let mut i: usize = 0;
    while i < streets.len()
        invariant
            0 <= i <= streets.len(),
            forall|k: int| 0 <= k < i ==> #[trigger] streets.deep_view()[k].id != street_id,
        decreases streets.len() - i,
    {
        if streets[i].id == street_id {
            proof {
                assert(streets.deep_view()[i as int].id == street_id);
            }
            return true;
        }
        i += 1;
    }
    false
}

/// Decide `bounds_ok`.
#[verifier::loop_isolation(false)]
fn check_bounds(teams: &Vec<TeamRow>, rows: &Vec<PolyRow>) -> (r: bool)
    ensures
        r == bounds_ok(teams@, rows.deep_view()),
{
    let ghost tv = teams@;
    let ghost s = rows.deep_view();
    proof {
        assert(teams.deep_view() =~= teams@);
    }
    let mut i: usize = 0;
    while i < rows.len()
        invariant
            0 <= i <= rows.len(),
            forall|k: int|
                0 <= k < i ==> (#[trigger] s[k]).points.len() >= 1 && has_team_in(
                    tv,
                    s[k].owner_id,
                ),
            forall|k: int, j: int| 0 <= k < j < i ==> s[k].owner_id != s[j].owner_id,
        decreases rows.len() - i,
    {
        if rows[i].points.len() == 0 {
            proof {
                assert(s[i as int].points.len() == 0);
                assert(!bounds_ok(tv, s)) by {
                    if bounds_ok(tv, s) {
                        assert((s[i as int]).points.len() >= 1);
                    }
                }
            }
            return false;
        }
        if !team_any_exec(teams, rows[i].owner_id) {
            proof {
                assert(!bounds_ok(tv, s)) by {
                    if bounds_ok(tv, s) {
                        let p = s[i as int];
                        assert(p.points.len() >= 1 && has_team_in(tv, p.owner_id));
                    }
                }
            }
            return false;
        }
        let mut j: usize = 0;
        while j < i
            invariant
                0 <= j <= i < rows.len(),
                forall|k: int| 0 <= k < j ==> #[trigger] s[k].owner_id != s[i as int].owner_id,
            decreases i - j,
        {
            if rows[j].owner_id == rows[i].owner_id {
                proof {
                    assert(!bounds_ok(tv, s)) by {
                        if bounds_ok(tv, s) {
                            assert(s[j as int].owner_id != s[i as int].owner_id);
                        }
                    }
                }
                return false;
            }
            j += 1;
        }
        i += 1;
    }
    true
}

/// Whether a team with the given id exists in any area.
#[verifier::loop_isolation(false)]
fn team_any_exec(teams: &Vec<TeamRow>, team_id: i64) -> (r: bool)
    ensures
        r == has_team_in(teams@, team_id),
{
    let mut i: usize = 0;
    while i < teams.len()
        invariant
            0 <= i <= teams.len(),
            forall|k: int| 0 <= k < i ==> #[trigger] teams@[k].id != team_id,
        decreases teams.len() - i,
    {
        if teams[i].id == team_id {
            proof {
                assert(teams@[i as int].id == team_id);
            }
            return true;
        }
        i += 1;
    }
    false
}

/// Decide `meta_ok`.
#[verifier::loop_isolation(false)]
fn check_meta(rows: &Vec<MetaRow>) -> (r: bool)
    ensures
        r == meta_ok(rows.deep_view()),
{
    let ghost s = rows.deep_view();
    let mut i: usize = 0;
    while i < rows.len()
        invariant
            0 <= i <= rows.len(),
            forall|k: int, j: int| 0 <= k < j < i ==> s[k].key != s[j].key,
        decreases rows.len() - i,
    {
        let mut j: usize = 0;
        while j < i
            invariant
                0 <= j <= i < rows.len(),
                forall|k: int| 0 <= k < j ==> #[trigger] s[k].key != s[i as int].key,
            decreases i - j,
        {
            if rows[j].key.eq(&rows[i].key) {
                proof {
                    assert(!meta_ok(s)) by {
                        if meta_ok(s) {
                            assert(s[j as int].key != s[i as int].key);
                        }
                    }
                }
                return false;
            }
            j += 1;
        }
        i += 1;
    }
    true
}


/// The area row with the given id, by first match.
pub open spec fn area_lookup(areas: Seq<AreaRowV>, id: i64) -> Option<AreaRowV>
    decreases areas.len(),
{
    if areas.len() == 0 {
        None
    } else if areas[0].id == id {
        Some(areas[0])
    } else {
        area_lookup(areas.drop_first(), id)
    }
}

/// With distinct area ids, `area_lookup` answers exactly as the table
/// reads.
pub proof fn lemma_area_lookup_unique(areas: Seq<AreaRowV>, id: i64)
    requires
        forall|i: int, j: int|
            0 <= i < j < areas.len() ==> #[trigger] areas[i].id != #[trigger] areas[j].id,
    ensures
        forall|i: int|
            0 <= i < areas.len() && #[trigger] areas[i].id == id ==> area_lookup(areas, id) == Some(
                areas[i],
            ),
        (forall|i: int| 0 <= i < areas.len() ==> #[trigger] areas[i].id != id) ==> area_lookup(
            areas,
            id,
        ) is None,
    decreases areas.len(),
{
    if areas.len() > 0 {
        if areas[0].id == id {
            assert forall|i: int|
                0 <= i < areas.len() && #[trigger] areas[i].id == id implies area_lookup(areas, id)
                == Some(areas[i]) by {
                if i != 0 {
                    assert(areas[0].id != areas[i].id);
                }
            }
        } else {
            let rest = areas.drop_first();
            lemma_area_lookup_unique(rest, id);
            assert forall|i: int|
                0 <= i < areas.len() && #[trigger] areas[i].id == id implies area_lookup(areas, id)
                == Some(areas[i]) by {
                assert(rest[i - 1] == areas[i]);
            }
            if forall|i: int| 0 <= i < areas.len() ==> #[trigger] areas[i].id != id {
                assert forall|i: int| 0 <= i < rest.len() implies #[trigger] rest[i].id != id by {
                    assert(rest[i] == areas[i + 1]);
                }
            }
        }
    }
}

impl WorkingStore {
    /// The image file name of the area with the given id, if it exists.
    #[verifier::loop_isolation(false)]
    pub fn area_image_fname(&self, id: i64) -> (r: Option<String>)
        requires
            self@.wf(),
        ensures
            match r {
                Some(f) => area_lookup(self@.areas, id) matches Some(row) && f@ == row.image_fname,
                None => area_lookup(self@.areas, id) is None && !self@.has_area(id),
            },
    {
        proof {
            assert forall|i: int, j: int| 0 <= i < j < self@.areas.len()
                implies #[trigger] self@.areas[i].id != #[trigger] self@.areas[j].id by {
                assert(self@.areas[i].id < self@.areas[j].id);
            }
            lemma_area_lookup_unique(self@.areas, id);
        }
        let mut idx: usize = 0;
        while idx < self.areas.len()
            invariant
                idx <= self.areas.len(),
                forall|i: int| 0 <= i < idx ==> #[trigger] self@.areas[i].id != id,
            decreases self.areas.len() - idx,
        {
            if self.areas[idx].id == id {
                proof {
                    assert(self@.areas[idx as int].id == id);
                    assert(area_lookup(self@.areas, id) == Some(self@.areas[idx as int]));
                }
                return Some(self.areas[idx].image_fname.clone());
            }
            idx += 1;
        }
        None
    }
}


/// A newly added area is listed: after the insertion, the listing holds
/// exactly one more row, at the end, carrying the supplied name and
/// color and the `Imported` state, and the listing stays ordered by
/// strictly ascending id.
pub proof fn lemma_added_area_listed(
    pre: StoreView,
    name: Seq<char>,
    color: Color,
    fname: Seq<char>,
)
    requires
        pre.wf(),
        pre.next_area_id() <= i64::MAX,
    ensures
        ({
            let row = AreaRowV {
                id: pre.next_area_id() as i64,
                name,
                color,
                state: AreaState::Imported,
                image_fname: fname,
            };
            let listed = pre.areas.push(row);
            &&& listed.len() == pre.areas.len() + 1
            &&& listed.last() == row
            &&& listed.last().state == AreaState::Imported
            &&& listed.last().name == name
            &&& listed.last().color == color
            &&& forall|i: int, j: int|
                0 <= i < j < listed.len() ==> #[trigger] listed[i].id < #[trigger] listed[j].id
        }),
{
    let row = AreaRowV {
        id: pre.next_area_id() as i64,
        name,
        color,
        state: AreaState::Imported,
        image_fname: fname,
    };
    let listed = pre.areas.push(row);
    assert forall|i: int, j: int| 0 <= i < j < listed.len() implies #[trigger] listed[i].id
        < #[trigger] listed[j].id by {
        if j == listed.len() - 1 {
            if i < pre.areas.len() - 1 {
                assert(pre.areas[i].id < pre.areas[pre.areas.len() - 1].id);
            }
        } else {
            assert(pre.areas[i].id < pre.areas[j].id);
        }
    }
}

/// A newly added address is the one its id fetches: in the table after
/// the insertion, the new id identifies exactly the inserted row, so a
/// fetch by that id returns the created address, equal on every field.
pub proof fn lemma_new_address_fetched(pre: StoreView, row: AddressV)
    requires
        pre.wf(),
        row.id == pre.next_address_id(),
        row.id <= i64::MAX,
    ensures
        ({
            let table = pre.addresses.push(row);
            forall|i: int|
                0 <= i < table.len() && #[trigger] table[i].id == row.id ==> table[i] == row
        }),
{
    let table = pre.addresses.push(row);
    assert forall|i: int|
        0 <= i < table.len() && #[trigger] table[i].id == row.id implies table[i] == row by {
        if i < pre.addresses.len() {
            if i < pre.addresses.len() - 1 {
                assert(pre.addresses[i].id < pre.addresses[pre.addresses.len() - 1].id);
            }
            assert(pre.addresses[i].id < row.id);
        }
    }
}

} // verus!
