//! Domain value types: points, colors, the area lifecycle, and the
//! per-entity record and update types used by the repository layer.

use vstd::prelude::*;

verus! {

/// A 2-D pixel position on an area's map image.
#[derive(Debug, Clone, Copy, PartialEq, Eq, Structural)]
pub struct Point {
    pub x: u32,
    pub y: u32,
}

/// An RGB color.
#[derive(Debug, Clone, Copy, PartialEq, Eq, Structural)]
pub struct Color {
    pub r: u8,
    pub g: u8,
    pub b: u8,
}

/// Lifecycle state of an area, ordered from freshly imported to complete.
/// The engine persists whatever state a caller supplies; it does not force
/// forward-only progression.
#[derive(Debug, Clone, Copy, PartialEq, Eq, Structural)]
pub enum AreaState {
    Imported,
    AddressesDetected,
    AddressesCorrected,
    StreetsDetected,
    StreetsCorrected,
    AddressesAssigned,
    FlatsEstimated,
    TeamsAssigned,
    Complete,
}

impl AreaState {
    /// The small integer under which this state is persisted.
    pub open spec fn spec_code(self) -> u8 {
        match self {
            AreaState::Imported => 0,
            AreaState::AddressesDetected => 1,
            AreaState::AddressesCorrected => 2,
            AreaState::StreetsDetected => 3,
            AreaState::StreetsCorrected => 4,
            AreaState::AddressesAssigned => 5,
            AreaState::FlatsEstimated => 6,
            AreaState::TeamsAssigned => 7,
            AreaState::Complete => 8,
        }
    }

    /// The state persisted under a small integer, if the integer is one
    /// of the nine valid codes.
    pub open spec fn spec_from_code(code: u8) -> Option<AreaState> {
        match code {
            0u8 => Some(AreaState::Imported),
            1u8 => Some(AreaState::AddressesDetected),
            2u8 => Some(AreaState::AddressesCorrected),
            3u8 => Some(AreaState::StreetsDetected),
            4u8 => Some(AreaState::StreetsCorrected),
            5u8 => Some(AreaState::AddressesAssigned),
            6u8 => Some(AreaState::FlatsEstimated),
            7u8 => Some(AreaState::TeamsAssigned),
            8u8 => Some(AreaState::Complete),
            _ => None,
        }
    }

    #[verifier::when_used_as_spec(spec_code)]
    pub fn to_code(self) -> (code: u8)
        ensures
            code == self.spec_code(),
            code <= 8,
    {
        match self {
            AreaState::Imported => 0,
            AreaState::AddressesDetected => 1,
            AreaState::AddressesCorrected => 2,
            AreaState::StreetsDetected => 3,
            AreaState::StreetsCorrected => 4,
            AreaState::AddressesAssigned => 5,
            AreaState::FlatsEstimated => 6,
            AreaState::TeamsAssigned => 7,
            AreaState::Complete => 8,
        }
    }

    pub fn from_code(code: u8) -> (state: Option<AreaState>)
        ensures
            state == AreaState::spec_from_code(code),
    {
        match code {
            0u8 => Some(AreaState::Imported),
            1u8 => Some(AreaState::AddressesDetected),
            2u8 => Some(AreaState::AddressesCorrected),
            3u8 => Some(AreaState::StreetsDetected),
            4u8 => Some(AreaState::StreetsCorrected),
            5u8 => Some(AreaState::AddressesAssigned),
            6u8 => Some(AreaState::FlatsEstimated),
            7u8 => Some(AreaState::TeamsAssigned),
            8u8 => Some(AreaState::Complete),
            _ => None,
        }
    }
}

/// Every state round-trips through its persisted code, and every valid
/// code round-trips through the state it denotes.
pub proof fn lemma_area_state_code_round_trip(state: AreaState, code: u8)
    ensures
        AreaState::spec_from_code(state.spec_code()) == Some(state),
        AreaState::spec_from_code(code) matches Some(s) ==> s.spec_code() == code,
{
}

/// A canvassing area: one bounded zone backed by a raster map image.
#[derive(Debug, Clone, PartialEq)]
pub struct Area {
    pub id: i64,
    pub name: String,
    pub color: Color,
    pub state: AreaState,
}

/// The data needed to create an area: a display name, a color, and the
/// raw bytes of its map image together with the source file's extension.
#[derive(Debug, Clone)]
pub struct NewArea {
    pub name: String,
    pub color: Color,
    pub image_bytes: Vec<u8>,
    pub image_ext: String,
}

/// A partial update of an area; `None` leaves the field unchanged.
#[derive(Debug, Clone)]
pub struct AreaUpdate {
    pub name: Option<String>,
    pub color: Option<Color>,
    pub state: Option<AreaState>,
}

impl Default for AreaUpdate {
    /// An update that changes nothing.
    fn default() -> (u: AreaUpdate)
        ensures
            u.name is None,
            u.color is None,
            u.state is None,
    {
        AreaUpdate { name: None, color: None, state: None }
    }
}

/// A street within an area.
#[derive(Debug, Clone, PartialEq)]
pub struct Street {
    pub id: i64,
    pub name: Option<String>,
    pub verified: bool,
}

/// A partial update of a street.  The nullable name uses a three-way
/// descriptor (keep, clear to null, or set); `None` leaves the verified
/// flag unchanged.
#[derive(Debug, Clone)]
pub struct StreetUpdate {
    pub name: FieldUpdate<String>,
    pub verified: Option<bool>,
}

impl Default for StreetUpdate {
    /// An update that changes nothing.
    fn default() -> (u: StreetUpdate)
        ensures
            u.name is Keep,
            u.verified is None,
    {
        StreetUpdate { name: FieldUpdate::Keep, verified: None }
    }
}

/// The ordered vertices of a street's drawn path.
#[derive(Debug, Clone, PartialEq)]
pub struct StreetPolyline {
    pub points: Vec<Point>,
}

/// A canvassing team within an area.  `number` is sequential and unique
/// within the owning area.
#[derive(Debug, Clone, Copy, PartialEq, Eq, Structural)]
pub struct Team {
    pub id: i64,
    pub number: u16,
}

/// The ordered vertices of a team's coverage polygon.
#[derive(Debug, Clone, PartialEq)]
pub struct TeamBounds {
    pub boundary: Vec<Point>,
}

/// One row of a team's address list: the address joined with its
/// assigned street, if any.
#[derive(Debug, Clone, PartialEq)]
pub struct TeamAddress {
    pub address_id: i64,
    pub street_id: Option<i64>,
    pub street_name: Option<String>,
    pub house_number: String,
}

/// A detected or hand-entered address within an area.  The confidence
/// score is held in thousandths (950 stands for a confidence of 0.95) so
/// that it can be stored and compared exactly.
#[derive(Debug, Clone, PartialEq)]
pub struct Address {
    pub id: i64,
    pub area_id: i64,
    pub house_number: String,
    pub position: Point,
    pub confidence_milli: u32,
    pub verified: bool,
    pub estimated_flats: Option<u16>,
    pub circle_radius: u32,
    pub assigned_street_id: Option<i64>,
}

/// The data needed to create an address; the id and the owning area are
/// assigned by the store.  A new address starts unverified.
#[derive(Debug, Clone)]
pub struct NewAddress {
    pub house_number: String,
    pub position: Point,
    pub confidence_milli: u32,
    pub estimated_flats: Option<u16>,
    pub circle_radius: u32,
    pub assigned_street_id: Option<i64>,
}

/// A three-way update descriptor for a nullable field: leave it as it
/// is, clear it to null, or set it to a value.
#[derive(Debug, Clone, Copy, PartialEq, Eq, Structural)]
pub enum FieldUpdate<T> {
    Keep,
    Clear,
    Assign(T),
}

impl<T> FieldUpdate<T> {
    /// The value a field holds after this update is applied over `cur`.
    pub open spec fn spec_apply(self, cur: Option<T>) -> Option<T> {
        match self {
            FieldUpdate::Keep => cur,
            FieldUpdate::Clear => None,
            FieldUpdate::Assign(v) => Some(v),
        }
    }
}

/// A partial update of an address.  Plain fields use `None` for "leave
/// unchanged"; the nullable fields use a three-way descriptor.
#[derive(Debug, Clone)]
pub struct AddressUpdate {
    pub house_number: Option<String>,
    pub position: Option<Point>,
    pub confidence_milli: Option<u32>,
    pub verified: Option<bool>,
    pub circle_radius: Option<u32>,
    pub estimated_flats: FieldUpdate<u16>,
    pub assigned_street: FieldUpdate<i64>,
}

impl Default for AddressUpdate {
    /// An update that changes nothing.
    fn default() -> (u: AddressUpdate)
        ensures
            u.house_number is None,
            u.position is None,
            u.confidence_milli is None,
            u.verified is None,
            u.circle_radius is None,
            u.estimated_flats == FieldUpdate::<u16>::Keep,
            u.assigned_street == FieldUpdate::<i64>::Keep,
    {
        AddressUpdate {
            house_number: None,
            position: None,
            confidence_milli: None,
            verified: None,
            circle_radius: None,
            estimated_flats: FieldUpdate::Keep,
            assigned_street: FieldUpdate::Keep,
        }
    }
}

/// A partial update of the project's metadata.  The creation timestamp
/// is carried as RFC 3339 text; callers that want a typed timestamp
/// format it before handing it in.
#[derive(Debug, Clone)]
pub struct UpdateProjectSettings {
    pub name: Option<String>,
    pub target_address_count: Option<u64>,
    pub created_at: Option<String>,
}

/// Everything that can go wrong in the engine, distinguishable by kind
/// so that callers can present specific messages.
#[derive(Debug, Clone, Copy, PartialEq, Eq, Structural)]
pub enum StoreError {
    /// The store was shut down by a final snapshot and cannot serve.
    Closed,
    /// An id lookup that the caller was owed (a held handle) found nothing.
    NotFound,
    /// A cross-area reference was rejected.
    ForeignKey,
    /// An address already has a team assignment.
    Uniqueness,
    /// The archive bytes cannot be decompressed or decoded.
    CorruptArchive,
    /// The archive holds a database without images, or the reverse.
    PartialLayout,
    /// The raster bytes were refused by the image decoder.
    BadImage,
    /// Malformed text: a hex color or a numeric metadata value.
    BadValue,
    /// A failure reported by the compressor.
    Io,
    /// The id space of a table is exhausted.
    Full,
}

impl StoreError {
    /// A human-readable message for this error.  The constraint kinds
    /// name their constraint the way the embedded store's own messages
    /// would, so callers can match on the text.
    pub fn message(&self) -> (msg: &'static str)
        ensures
            *self == StoreError::ForeignKey ==> msg@ == "FOREIGN KEY constraint failed"@,
            *self == StoreError::Uniqueness ==> msg@ == "UNIQUE constraint failed"@,
            *self == StoreError::NotFound ==> msg@ == "not found"@,
            *self == StoreError::Closed ==> msg@ == "store is closed"@,
    {
        match self {
            StoreError::Closed => "store is closed",
            StoreError::NotFound => "not found",
            StoreError::ForeignKey => "FOREIGN KEY constraint failed",
            StoreError::Uniqueness => "UNIQUE constraint failed",
            StoreError::CorruptArchive => "corrupt project: archive cannot be decoded",
            StoreError::PartialLayout => "corrupt project: partial working layout",
            StoreError::BadImage => "image bytes cannot be decoded",
            StoreError::BadValue => "malformed value",
            StoreError::Io => "input/output failure",
            StoreError::Full => "id space exhausted",
        }
    }
}

} // verus!
