//! The snapshot byte format: how a working store and its image files
//! are laid out inside the compressed archive.
//!
//! The reader is specified first, as a total function of the bytes; the
//! executable reader returns exactly what the specification says, so an
//! archive is accepted if and only if the specification accepts it.
//! The writer carries no trust of its own: after packing, the snapshot
//! operation reads its own output back and compares, so everything it
//! promises rests on the verified reader.

use vstd::prelude::*;
use vstd::bytes::spec_u16_from_le_bytes;
use vstd::bytes::spec_u32_from_le_bytes;
use vstd::bytes::spec_u64_from_le_bytes;
use vstd::bytes::u16_from_le_bytes;
use vstd::bytes::u16_to_le_bytes;
use vstd::bytes::u32_from_le_bytes;
use vstd::bytes::u32_to_le_bytes;
use vstd::bytes::u64_from_le_bytes;
use vstd::bytes::u64_to_le_bytes;
use vstd::slice::slice_subrange;
use vstd::utf8::valid_utf8;
use vstd::utf8::decode_utf8;

use crate::model::Address;
use crate::model::AreaState;
use crate::model::Point;
use crate::model::StoreError;
use crate::outside::string_from_utf8;
use crate::store::AddressV;
use crate::store::AreaRow;
use crate::store::AreaRowV;
use crate::store::AssignRow;
use crate::store::MetaRow;
use crate::store::MetaRowV;
use crate::store::PolyRow;
use crate::store::PolyRowV;
use crate::store::StoreView;
use crate::store::StreetRow;
use crate::store::StreetRowV;
use crate::store::TeamRow;
use crate::store::WorkingStore;

verus! {

/// An unsigned 64-bit number at `pos`: eight little-endian bytes.
pub open spec fn parse_u64(b: Seq<u8>, pos: int) -> Option<(u64, int)> {
    if 0 <= pos && pos + 8 <= b.len() {
        Some((spec_u64_from_le_bytes(b.subrange(pos, pos + 8)), pos + 8))
    } else {
        None
    }
}

/// A signed 64-bit number: its unsigned bit pattern.
pub open spec fn parse_i64(b: Seq<u8>, pos: int) -> Option<(i64, int)> {
    match parse_u64(b, pos) {
        Some((v, next)) => Some((v as i64, next)),
        None => None,
    }
}

/// An unsigned 32-bit number: four little-endian bytes.
pub open spec fn parse_u32(b: Seq<u8>, pos: int) -> Option<(u32, int)> {
    if 0 <= pos && pos + 4 <= b.len() {
        Some((spec_u32_from_le_bytes(b.subrange(pos, pos + 4)), pos + 4))
    } else {
        None
    }
}

/// An unsigned 16-bit number: two little-endian bytes.
pub open spec fn parse_u16(b: Seq<u8>, pos: int) -> Option<(u16, int)> {
    if 0 <= pos && pos + 2 <= b.len() {
        Some((spec_u16_from_le_bytes(b.subrange(pos, pos + 2)), pos + 2))
    } else {
        None
    }
}

/// A single byte.
pub open spec fn parse_u8(b: Seq<u8>, pos: int) -> Option<(u8, int)> {
    if 0 <= pos && pos + 1 <= b.len() {
        Some((b[pos], pos + 1))
    } else {
        None
    }
}

/// A boolean: one byte that must be zero or one.
pub open spec fn parse_bool(b: Seq<u8>, pos: int) -> Option<(bool, int)> {
    match parse_u8(b, pos) {
        Some((v, next)) => if v == 0 {
            Some((false, next))
        } else if v == 1 {
            Some((true, next))
        } else {
            None
        },
        None => None,
    }
}

/// A byte string: a 64-bit length, then that many bytes.
pub open spec fn parse_bytes(b: Seq<u8>, pos: int) -> Option<(Seq<u8>, int)> {
    match parse_u64(b, pos) {
        Some((n, next)) => if next + n <= b.len() {
            Some((b.subrange(next, next + n), next + n))
        } else {
            None
        },
        None => None,
    }
}

/// A text string: a byte string that must be valid UTF-8.
pub open spec fn parse_string(b: Seq<u8>, pos: int) -> Option<(Seq<char>, int)> {
    match parse_bytes(b, pos) {
        Some((raw, next)) => if valid_utf8(raw) {
            Some((decode_utf8(raw), next))
        } else {
            None
        },
        None => None,
    }
}

/// An optional text string: a tag byte, then the string when present.
pub open spec fn parse_opt_string(b: Seq<u8>, pos: int) -> Option<(Option<Seq<char>>, int)> {
    match parse_u8(b, pos) {
        Some((tag, next)) => if tag == 0 {
            Some((None, next))
        } else if tag == 1 {
            match parse_string(b, next) {
                Some((s, next2)) => Some((Some(s), next2)),
                None => None,
            }
        } else {
            None
        },
        None => None,
    }
}

/// An optional 16-bit number: a tag byte, then the number when present.
pub open spec fn parse_opt_u16(b: Seq<u8>, pos: int) -> Option<(Option<u16>, int)> {
    match parse_u8(b, pos) {
        Some((tag, next)) => if tag == 0 {
            Some((None, next))
        } else if tag == 1 {
            match parse_u16(b, next) {
                Some((v, next2)) => Some((Some(v), next2)),
                None => None,
            }
        } else {
            None
        },
        None => None,
    }
}

/// An optional signed 64-bit number: a tag byte, then the number.
pub open spec fn parse_opt_i64(b: Seq<u8>, pos: int) -> Option<(Option<i64>, int)> {
    match parse_u8(b, pos) {
        Some((tag, next)) => if tag == 0 {
            Some((None, next))
        } else if tag == 1 {
            match parse_i64(b, next) {
                Some((v, next2)) => Some((Some(v), next2)),
                None => None,
            }
        } else {
            None
        },
        None => None,
    }
}

/// A point: two 32-bit coordinates.
pub open spec fn parse_point(b: Seq<u8>, pos: int) -> Option<(Point, int)> {
    match parse_u32(b, pos) {
        Some((x, next)) => match parse_u32(b, next) {
            Some((y, next2)) => Some((Point { x, y }, next2)),
            None => None,
        },
        None => None,
    }
}

/// `n` more points of a vertex list.
pub open spec fn parse_points_n(b: Seq<u8>, pos: int, n: nat) -> Option<(Seq<Point>, int)>
    decreases n,
{
    if n == 0 {
        Some((Seq::empty(), pos))
    } else {
        match parse_point(b, pos) {
            Some((p, next)) => match parse_points_n(b, next, (n - 1) as nat) {
                Some((rest, next2)) => Some((seq![p] + rest, next2)),
                None => None,
            },
            None => None,
        }
    }
}

/// A vertex list: a 64-bit count, then that many points.
pub open spec fn parse_points(b: Seq<u8>, pos: int) -> Option<(Seq<Point>, int)> {
    match parse_u64(b, pos) {
        Some((n, next)) => parse_points_n(b, next, n as nat),
        None => None,
    }
}

/// Read an unsigned 64-bit number.
pub fn read_u64(b: &Vec<u8>, pos: usize) -> (r: Option<(u64, usize)>)
    ensures
        match r {
            Some((v, next)) => parse_u64(b@, pos as int) == Some((v, next as int)),
            None => parse_u64(b@, pos as int) is None,
        },
{
    if pos <= b.len() && b.len() - pos >= 8 {
        let s = slice_subrange(b.as_slice(), pos, pos + 8);
        Some((u64_from_le_bytes(s), pos + 8))
    } else {
        None
    }
}

/// Read a signed 64-bit number.
pub fn read_i64(b: &Vec<u8>, pos: usize) -> (r: Option<(i64, usize)>)
    ensures
        match r {
            Some((v, next)) => parse_i64(b@, pos as int) == Some((v, next as int)),
            None => parse_i64(b@, pos as int) is None,
        },
{
    match read_u64(b, pos) {
        Some((v, next)) => Some((v as i64, next)),
        None => None,
    }
}

/// Read an unsigned 32-bit number.
pub fn read_u32(b: &Vec<u8>, pos: usize) -> (r: Option<(u32, usize)>)
    ensures
        match r {
            Some((v, next)) => parse_u32(b@, pos as int) == Some((v, next as int)),
            None => parse_u32(b@, pos as int) is None,
        },
{
    if pos <= b.len() && b.len() - pos >= 4 {
        let s = slice_subrange(b.as_slice(), pos, pos + 4);
        Some((u32_from_le_bytes(s), pos + 4))
    } else {
        None
    }
}

/// Read an unsigned 16-bit number.
pub fn read_u16(b: &Vec<u8>, pos: usize) -> (r: Option<(u16, usize)>)
    ensures
        match r {
            Some((v, next)) => parse_u16(b@, pos as int) == Some((v, next as int)),
            None => parse_u16(b@, pos as int) is None,
        },
{
    if pos <= b.len() && b.len() - pos >= 2 {
        let s = slice_subrange(b.as_slice(), pos, pos + 2);
        Some((u16_from_le_bytes(s), pos + 2))
    } else {
        None
    }
}

/// Read one byte.
pub fn read_u8(b: &Vec<u8>, pos: usize) -> (r: Option<(u8, usize)>)
    ensures
        match r {
            Some((v, next)) => parse_u8(b@, pos as int) == Some((v, next as int)),
            None => parse_u8(b@, pos as int) is None,
        },
{
    if pos < b.len() {
        Some((b[pos], pos + 1))
    } else {
        None
    }
}

/// Read a boolean.
pub fn read_bool(b: &Vec<u8>, pos: usize) -> (r: Option<(bool, usize)>)
    ensures
        match r {
            Some((v, next)) => parse_bool(b@, pos as int) == Some((v, next as int)),
            None => parse_bool(b@, pos as int) is None,
        },
{
    match read_u8(b, pos) {
        Some((v, next)) => {
            if v == 0 {
                Some((false, next))
            } else if v == 1 {
                Some((true, next))
            } else {
                None
            }
        },
        None => None,
    }
}

/// Read a byte string.
#[verifier::loop_isolation(false)]
pub fn read_bytes(b: &Vec<u8>, pos: usize) -> (r: Option<(Vec<u8>, usize)>)
    ensures
        match r {
            Some((v, next)) => parse_bytes(b@, pos as int) == Some((v@, next as int)),
            None => parse_bytes(b@, pos as int) is None,
        },
{
    let (n, next) = match read_u64(b, pos) {
        Some(x) => x,
        None => {
            return None;
        },
    };
    if n > (b.len() - next) as u64 {
        return None;
    }
    let n = n as usize;
    let mut out: Vec<u8> = Vec::new();
    let mut i: usize = 0;
    while i < n
        invariant
            0 <= i <= n,
            out@ =~= b@.subrange(next as int, next as int + i),
        decreases n - i,
    {
        out.push(b[next + i]);
        proof {
            assert(out@ =~= b@.subrange(next as int, next as int + i + 1));
        }
        i += 1;
    }
    Some((out, next + n))
}

/// Read a text string.
pub fn read_string(b: &Vec<u8>, pos: usize) -> (r: Option<(String, usize)>)
    ensures
        match r {
            Some((v, next)) => parse_string(b@, pos as int) == Some((v@, next as int)),
            None => parse_string(b@, pos as int) is None,
        },
{
    let (raw, next) = match read_bytes(b, pos) {
        Some(x) => x,
        None => {
            return None;
        },
    };
    match string_from_utf8(raw) {
        Some(s) => Some((s, next)),
        None => None,
    }
}

/// Read an optional text string.
pub fn read_opt_string(b: &Vec<u8>, pos: usize) -> (r: Option<(Option<String>, usize)>)
    ensures
        match r {
            Some((v, next)) => parse_opt_string(b@, pos as int) == Some((v.deep_view(), next as int)),
            None => parse_opt_string(b@, pos as int) is None,
        },
{
    let (tag, next) = match read_u8(b, pos) {
        Some(x) => x,
        None => {
            return None;
        },
    };
    if tag == 0 {
        Some((None, next))
    } else if tag == 1 {
        match read_string(b, next) {
            Some((s, next2)) => Some((Some(s), next2)),
            None => None,
        }
    } else {
        None
    }
}

/// Read an optional 16-bit number.
pub fn read_opt_u16(b: &Vec<u8>, pos: usize) -> (r: Option<(Option<u16>, usize)>)
    ensures
        match r {
            Some((v, next)) => parse_opt_u16(b@, pos as int) == Some((v, next as int)),
            None => parse_opt_u16(b@, pos as int) is None,
        },
{
    let (tag, next) = match read_u8(b, pos) {
        Some(x) => x,
        None => {
            return None;
        },
    };
    if tag == 0 {
        Some((None, next))
    } else if tag == 1 {
        match read_u16(b, next) {
            Some((v, next2)) => Some((Some(v), next2)),
            None => None,
        }
    } else {
        None
    }
}

/// Read an optional signed 64-bit number.
pub fn read_opt_i64(b: &Vec<u8>, pos: usize) -> (r: Option<(Option<i64>, usize)>)
    ensures
        match r {
            Some((v, next)) => parse_opt_i64(b@, pos as int) == Some((v, next as int)),
            None => parse_opt_i64(b@, pos as int) is None,
        },
{
    let (tag, next) = match read_u8(b, pos) {
        Some(x) => x,
        None => {
            return None;
        },
    };
    if tag == 0 {
        Some((None, next))
    } else if tag == 1 {
        match read_i64(b, next) {
            Some((v, next2)) => Some((Some(v), next2)),
            None => None,
        }
    } else {
        None
    }
}

/// Read a point.
pub fn read_point(b: &Vec<u8>, pos: usize) -> (r: Option<(Point, usize)>)
    ensures
        match r {
            Some((v, next)) => parse_point(b@, pos as int) == Some((v, next as int)),
            None => parse_point(b@, pos as int) is None,
        },
{
    let (x, next) = match read_u32(b, pos) {
        Some(x) => x,
        None => {
            return None;
        },
    };
    match read_u32(b, next) {
        Some((y, next2)) => Some((Point { x, y }, next2)),
        None => None,
    }
}

/// Read a vertex list.
#[verifier::loop_isolation(false)]
pub fn read_points(b: &Vec<u8>, pos: usize) -> (r: Option<(Vec<Point>, usize)>)
    ensures
        match r {
            Some((v, next)) => parse_points(b@, pos as int) == Some((v@, next as int)),
            None => parse_points(b@, pos as int) is None,
        },
{
    let (n, next) = match read_u64(b, pos) {
        Some(x) => x,
        None => {
            return None;
        },
    };
    let mut out: Vec<Point> = Vec::new();
    let mut cur: usize = next;
    let mut i: u64 = 0;
    while i < n
        invariant
            0 <= i <= n,
            cur <= b@.len(),
            parse_points_n(b@, next as int, n as nat) == (match parse_points_n(
                b@,
                cur as int,
                (n - i) as nat,
            ) {
                Some((rest, fin)) => Some((out@ + rest, fin)),
                None => None::<(Seq<Point>, int)>,
            }),
        decreases n - i,
    {
        let (p, next2) = match read_point(b, cur) {
            Some(x) => x,
            None => {
                return None;
            },
        };
        let ghost pre = out@;
        out.push(p);
        proof {
            assert(out@ =~= pre.push(p));
            assert forall|rest: Seq<Point>| true implies pre + (seq![p] + rest) =~= out@ + rest by {}
        }
        cur = next2;
        i += 1;
    }
    proof {
        assert(parse_points_n(b@, cur as int, 0) == Some((Seq::<Point>::empty(), cur as int)));
        assert(out@ + Seq::<Point>::empty() =~= out@);
    }
    Some((out, cur))
}


/// One stored raster file: its generated name and its raw bytes.
#[derive(Debug)]
pub struct ImageEntry {
    pub name: String,
    pub data: Vec<u8>,
}

/// The mathematical value of a stored raster file.
pub struct ImageEntryV {
    pub name: Seq<char>,
    pub data: Seq<u8>,
}

impl vstd::view::View for ImageEntry {
    type V = ImageEntryV;

    open spec fn view(&self) -> ImageEntryV {
        ImageEntryV { name: self.name@, data: self.data@ }
    }
}

impl vstd::view::DeepView for ImageEntry {
    type V = ImageEntryV;

    open spec fn deep_view(&self) -> ImageEntryV {
        self@
    }
}

/// A metadata row: key and value strings.
pub open spec fn parse_meta_row(b: Seq<u8>, pos: int) -> Option<(MetaRowV, int)> {
    match parse_string(b, pos) {
        Some((key, p1)) => match parse_string(b, p1) {
            Some((value, p2)) => Some((MetaRowV { key, value }, p2)),
            None => None,
        },
        None => None,
    }
}

/// An area row: id, name, color channels, state code, image file name.
pub open spec fn parse_area_row(b: Seq<u8>, pos: int) -> Option<(AreaRowV, int)> {
    match parse_i64(b, pos) {
        Some((id, p1)) => match parse_string(b, p1) {
            Some((name, p2)) => match parse_u8(b, p2) {
                Some((cr, p3)) => match parse_u8(b, p3) {
                    Some((cg, p4)) => match parse_u8(b, p4) {
                        Some((cb, p5)) => match parse_u8(b, p5) {
                            Some((code, p6)) => match AreaState::spec_from_code(code) {
                                Some(state) => match parse_string(b, p6) {
                                    Some((image_fname, p7)) => Some(
                                        (
                                            AreaRowV {
                                                id,
                                                name,
                                                color: crate::model::Color {
                                                    r: cr,
                                                    g: cg,
                                                    b: cb,
                                                },
                                                state,
                                                image_fname,
                                            },
                                            p7,
                                        ),
                                    ),
                                    None => None,
                                },
                                None => None,
                            },
                            None => None,
                        },
                        None => None,
                    },
                    None => None,
                },
                None => None,
            },
            None => None,
        },
        None => None,
    }
}

/// A street row: id, owning area, optional name, verified flag.
pub open spec fn parse_street_row(b: Seq<u8>, pos: int) -> Option<(StreetRowV, int)> {
    match parse_i64(b, pos) {
        Some((id, p1)) => match parse_i64(b, p1) {
            Some((area_id, p2)) => match parse_opt_string(b, p2) {
                Some((name, p3)) => match parse_bool(b, p3) {
                    Some((verified, p4)) => Some((StreetRowV { id, area_id, name, verified }, p4)),
                    None => None,
                },
                None => None,
            },
            None => None,
        },
        None => None,
    }
}

/// A vertex-list row: owner and points.
pub open spec fn parse_poly_row(b: Seq<u8>, pos: int) -> Option<(PolyRowV, int)> {
    match parse_i64(b, pos) {
        Some((owner_id, p1)) => match parse_points(b, p1) {
            Some((points, p2)) => Some((PolyRowV { owner_id, points }, p2)),
            None => None,
        },
        None => None,
    }
}

/// An address row.
pub open spec fn parse_address_row(b: Seq<u8>, pos: int) -> Option<(AddressV, int)> {
    match parse_i64(b, pos) {
        Some((id, p1)) => match parse_i64(b, p1) {
            Some((area_id, p2)) => match parse_string(b, p2) {
                Some((house_number, p3)) => match parse_point(b, p3) {
                    Some((position, p4)) => match parse_u32(b, p4) {
                        Some((confidence_milli, p5)) => match parse_bool(b, p5) {
                            Some((verified, p6)) => match parse_opt_u16(b, p6) {
                                Some((estimated_flats, p7)) => match parse_u32(b, p7) {
                                    Some((circle_radius, p8)) => match parse_opt_i64(b, p8) {
                                        Some((assigned_street_id, p9)) => Some(
                                            (
                                                AddressV {
                                                    id,
                                                    area_id,
                                                    house_number,
                                                    position,
                                                    confidence_milli,
                                                    verified,
                                                    estimated_flats,
                                                    circle_radius,
                                                    assigned_street_id,
                                                },
                                                p9,
                                            ),
                                        ),
                                        None => None,
                                    },
                                    None => None,
                                },
                                None => None,
                            },
                            None => None,
                        },
                        None => None,
                    },
                    None => None,
                },
                None => None,
            },
            None => None,
        },
        None => None,
    }
}

/// A team row: id, owning area, number.
pub open spec fn parse_team_row(b: Seq<u8>, pos: int) -> Option<(TeamRow, int)> {
    match parse_i64(b, pos) {
        Some((id, p1)) => match parse_i64(b, p1) {
            Some((area_id, p2)) => match parse_u16(b, p2) {
                Some((number, p3)) => Some((TeamRow { id, area_id, number }, p3)),
                None => None,
            },
            None => None,
        },
        None => None,
    }
}

/// An assignment row: team, address, area.
pub open spec fn parse_assign_row(b: Seq<u8>, pos: int) -> Option<(AssignRow, int)> {
    match parse_i64(b, pos) {
        Some((team_id, p1)) => match parse_i64(b, p1) {
            Some((address_id, p2)) => match parse_i64(b, p2) {
                Some((area_id, p3)) => Some((AssignRow { team_id, address_id, area_id }, p3)),
                None => None,
            },
            None => None,
        },
        None => None,
    }
}

/// A raster entry: file name and raw bytes.
pub open spec fn parse_image_entry(b: Seq<u8>, pos: int) -> Option<(ImageEntryV, int)> {
    match parse_string(b, pos) {
        Some((name, p1)) => match parse_bytes(b, p1) {
            Some((data, p2)) => Some((ImageEntryV { name, data }, p2)),
            None => None,
        },
        None => None,
    }
}


/// Read a metadata row.
pub fn read_meta_row(b: &Vec<u8>, pos: usize) -> (r: Option<(MetaRow, usize)>)
    ensures
        match r {
            Some((v, next)) => parse_meta_row(b@, pos as int) == Some((v@, next as int)),
            None => parse_meta_row(b@, pos as int) is None,
        },
{
    let (key, p1) = match read_string(b, pos) {
        Some(x) => x,
        None => {
            return None;
        },
    };
    let (value, p2) = match read_string(b, p1) {
        Some(x) => x,
        None => {
            return None;
        },
    };
    Some((MetaRow { key, value }, p2))
}

/// Read an area row.
pub fn read_area_row(b: &Vec<u8>, pos: usize) -> (r: Option<(AreaRow, usize)>)
    ensures
        match r {
            Some((v, next)) => parse_area_row(b@, pos as int) == Some((v@, next as int)),
            None => parse_area_row(b@, pos as int) is None,
        },
{
    let (id, p1) = match read_i64(b, pos) {
        Some(x) => x,
        None => {
            return None;
        },
    };
    let (name, p2) = match read_string(b, p1) {
        Some(x) => x,
        None => {
            return None;
        },
    };
    let (cr, p3) = match read_u8(b, p2) {
        Some(x) => x,
        None => {
            return None;
        },
    };
    let (cg, p4) = match read_u8(b, p3) {
        Some(x) => x,
        None => {
            return None;
        },
    };
    let (cb, p5) = match read_u8(b, p4) {
        Some(x) => x,
        None => {
            return None;
        },
    };
    let (code, p6) = match read_u8(b, p5) {
        Some(x) => x,
        None => {
            return None;
        },
    };
    let state = match AreaState::from_code(code) {
        Some(s) => s,
        None => {
            return None;
        },
    };
    let (image_fname, p7) = match read_string(b, p6) {
        Some(x) => x,
        None => {
            return None;
        },
    };
    Some(
        (
            AreaRow {
                id,
                name,
                color: crate::model::Color { r: cr, g: cg, b: cb },
                state,
                image_fname,
            },
            p7,
        ),
    )
}

/// Read a street row.
pub fn read_street_row(b: &Vec<u8>, pos: usize) -> (r: Option<(StreetRow, usize)>)
    ensures
        match r {
            Some((v, next)) => parse_street_row(b@, pos as int) == Some((v@, next as int)),
            None => parse_street_row(b@, pos as int) is None,
        },
{
    let (id, p1) = match read_i64(b, pos) {
        Some(x) => x,
        None => {
            return None;
        },
    };
    let (area_id, p2) = match read_i64(b, p1) {
        Some(x) => x,
        None => {
            return None;
        },
    };
    let (name, p3) = match read_opt_string(b, p2) {
        Some(x) => x,
        None => {
            return None;
        },
    };
    let (verified, p4) = match read_bool(b, p3) {
        Some(x) => x,
        None => {
            return None;
        },
    };
    Some((StreetRow { id, area_id, name, verified }, p4))
}

/// Read a vertex-list row.
pub fn read_poly_row(b: &Vec<u8>, pos: usize) -> (r: Option<(PolyRow, usize)>)
    ensures
        match r {
            Some((v, next)) => parse_poly_row(b@, pos as int) == Some((v@, next as int)),
            None => parse_poly_row(b@, pos as int) is None,
        },
{
    let (owner_id, p1) = match read_i64(b, pos) {
        Some(x) => x,
        None => {
            return None;
        },
    };
    let (points, p2) = match read_points(b, p1) {
        Some(x) => x,
        None => {
            return None;
        },
    };
    Some((PolyRow { owner_id, points }, p2))
}

/// Read an address row.
pub fn read_address_row(b: &Vec<u8>, pos: usize) -> (r: Option<(Address, usize)>)
    ensures
        match r {
            Some((v, next)) => parse_address_row(b@, pos as int) == Some((v@, next as int)),
            None => parse_address_row(b@, pos as int) is None,
        },
{
    let (id, p1) = match read_i64(b, pos) {
        Some(x) => x,
        None => {
            return None;
        },
    };
    let (area_id, p2) = match read_i64(b, p1) {
        Some(x) => x,
        None => {
            return None;
        },
    };
    let (house_number, p3) = match read_string(b, p2) {
        Some(x) => x,
        None => {
            return None;
        },
    };
    let (position, p4) = match read_point(b, p3) {
        Some(x) => x,
        None => {
            return None;
        },
    };
    let (confidence_milli, p5) = match read_u32(b, p4) {
        Some(x) => x,
        None => {
            return None;
        },
    };
    let (verified, p6) = match read_bool(b, p5) {
        Some(x) => x,
        None => {
            return None;
        },
    };
    let (estimated_flats, p7) = match read_opt_u16(b, p6) {
        Some(x) => x,
        None => {
            return None;
        },
    };
    let (circle_radius, p8) = match read_u32(b, p7) {
        Some(x) => x,
        None => {
            return None;
        },
    };
    let (assigned_street_id, p9) = match read_opt_i64(b, p8) {
        Some(x) => x,
        None => {
            return None;
        },
    };
    Some(
        (
            Address {
                id,
                area_id,
                house_number,
                position,
                confidence_milli,
                verified,
                estimated_flats,
                circle_radius,
                assigned_street_id,
            },
            p9,
        ),
    )
}

/// Read a team row.
pub fn read_team_row(b: &Vec<u8>, pos: usize) -> (r: Option<(TeamRow, usize)>)
    ensures
        match r {
            Some((v, next)) => parse_team_row(b@, pos as int) == Some((v, next as int)),
            None => parse_team_row(b@, pos as int) is None,
        },
{
    let (id, p1) = match read_i64(b, pos) {
        Some(x) => x,
        None => {
            return None;
        },
    };
    let (area_id, p2) = match read_i64(b, p1) {
        Some(x) => x,
        None => {
            return None;
        },
    };
    let (number, p3) = match read_u16(b, p2) {
        Some(x) => x,
        None => {
            return None;
        },
    };
    Some((TeamRow { id, area_id, number }, p3))
}

/// Read an assignment row.
pub fn read_assign_row(b: &Vec<u8>, pos: usize) -> (r: Option<(AssignRow, usize)>)
    ensures
        match r {
            Some((v, next)) => parse_assign_row(b@, pos as int) == Some((v, next as int)),
            None => parse_assign_row(b@, pos as int) is None,
        },
{
    let (team_id, p1) = match read_i64(b, pos) {
        Some(x) => x,
        None => {
            return None;
        },
    };
    let (address_id, p2) = match read_i64(b, p1) {
        Some(x) => x,
        None => {
            return None;
        },
    };
    let (area_id, p3) = match read_i64(b, p2) {
        Some(x) => x,
        None => {
            return None;
        },
    };
    Some((AssignRow { team_id, address_id, area_id }, p3))
}

/// Read a raster entry.
pub fn read_image_entry(b: &Vec<u8>, pos: usize) -> (r: Option<(ImageEntry, usize)>)
    ensures
        match r {
            Some((v, next)) => parse_image_entry(b@, pos as int) == Some((v@, next as int)),
            None => parse_image_entry(b@, pos as int) is None,
        },
{
    let (name, p1) = match read_string(b, pos) {
        Some(x) => x,
        None => {
            return None;
        },
    };
    let (data, p2) = match read_bytes(b, p1) {
        Some(x) => x,
        None => {
            return None;
        },
    };
    Some((ImageEntry { name, data }, p2))
}

/// `n` more rows of the metadata table.
pub open spec fn parse_meta_n(b: Seq<u8>, pos: int, n: nat) -> Option<(Seq<MetaRowV>, int)>
    decreases n,
{
    if n == 0 {
        Some((Seq::empty(), pos))
    } else {
        match parse_meta_row(b, pos) {
            Some((row, next)) => match parse_meta_n(b, next, (n - 1) as nat) {
                Some((rest, next2)) => Some((seq![row] + rest, next2)),
                None => None,
            },
            None => None,
        }
    }
}

/// The metadata table: a 64-bit count, then that many rows.
pub open spec fn parse_meta_table(b: Seq<u8>, pos: int) -> Option<(Seq<MetaRowV>, int)> {
    match parse_u64(b, pos) {
        Some((n, next)) => parse_meta_n(b, next, n as nat),
        None => None,
    }
}

/// Read the metadata table.
#[verifier::loop_isolation(false)]
pub fn read_meta_table(b: &Vec<u8>, pos: usize) -> (r: Option<(Vec<MetaRow>, usize)>)
    ensures
        match r {
            Some((v, next)) => parse_meta_table(b@, pos as int) == Some(
                (v.deep_view(), next as int),
            ),
            None => parse_meta_table(b@, pos as int) is None,
        },
{
    let (n, next) = match read_u64(b, pos) {
        Some(x) => x,
        None => {
            return None;
        },
    };
    let mut out: Vec<MetaRow> = Vec::new();
    let mut cur: usize = next;
    let mut i: u64 = 0;
    while i < n
        invariant
            0 <= i <= n,
            parse_meta_n(b@, next as int, n as nat) == (match parse_meta_n(
                b@,
                cur as int,
                (n - i) as nat,
            ) {
                Some((rest, fin)) => Some((out.deep_view() + rest, fin)),
                None => None::<(Seq<MetaRowV>, int)>,
            }),
        decreases n - i,
    {
        let (row, next2) = match read_meta_row(b, cur) {
            Some(x) => x,
            None => {
                return None;
            },
        };
        let ghost pre = out.deep_view();
        let ghost rowv = row.deep_view();
        out.push(row);
        proof {
            assert(out.deep_view() =~= pre.push(rowv));
            assert forall|rest: Seq<MetaRowV>| true implies pre + (seq![rowv] + rest) =~= out.deep_view()
                + rest by {}
        }
        cur = next2;
        i += 1;
    }
    proof {
        assert(parse_meta_n(b@, cur as int, 0) == Some((Seq::<MetaRowV>::empty(), cur as int)));
        assert(out.deep_view() + Seq::<MetaRowV>::empty() =~= out.deep_view());
    }
    Some((out, cur))
}

/// `n` more rows of the area table.
pub open spec fn parse_areas_n(b: Seq<u8>, pos: int, n: nat) -> Option<(Seq<AreaRowV>, int)>
    decreases n,
{
    if n == 0 {
        Some((Seq::empty(), pos))
    } else {
        match parse_area_row(b, pos) {
            Some((row, next)) => match parse_areas_n(b, next, (n - 1) as nat) {
                Some((rest, next2)) => Some((seq![row] + rest, next2)),
                None => None,
            },
            None => None,
        }
    }
}

/// The area table: a 64-bit count, then that many rows.
pub open spec fn parse_areas_table(b: Seq<u8>, pos: int) -> Option<(Seq<AreaRowV>, int)> {
    match parse_u64(b, pos) {
        Some((n, next)) => parse_areas_n(b, next, n as nat),
        None => None,
    }
}

/// Read the area table.
#[verifier::loop_isolation(false)]
pub fn read_areas_table(b: &Vec<u8>, pos: usize) -> (r: Option<(Vec<AreaRow>, usize)>)
    ensures
        match r {
            Some((v, next)) => parse_areas_table(b@, pos as int) == Some(
                (v.deep_view(), next as int),
            ),
            None => parse_areas_table(b@, pos as int) is None,
        },
{
    let (n, next) = match read_u64(b, pos) {
        Some(x) => x,
        None => {
            return None;
        },
    };
    let mut out: Vec<AreaRow> = Vec::new();
    let mut cur: usize = next;
    let mut i: u64 = 0;
    while i < n
        invariant
            0 <= i <= n,
            parse_areas_n(b@, next as int, n as nat) == (match parse_areas_n(
                b@,
                cur as int,
                (n - i) as nat,
            ) {
                Some((rest, fin)) => Some((out.deep_view() + rest, fin)),
                None => None::<(Seq<AreaRowV>, int)>,
            }),
        decreases n - i,
    {
        let (row, next2) = match read_area_row(b, cur) {
            Some(x) => x,
            None => {
                return None;
            },
        };
        let ghost pre = out.deep_view();
        let ghost rowv = row.deep_view();
        out.push(row);
        proof {
            assert(out.deep_view() =~= pre.push(rowv));
            assert forall|rest: Seq<AreaRowV>| true implies pre + (seq![rowv] + rest) =~= out.deep_view()
                + rest by {}
        }
        cur = next2;
        i += 1;
    }
    proof {
        assert(parse_areas_n(b@, cur as int, 0) == Some((Seq::<AreaRowV>::empty(), cur as int)));
        assert(out.deep_view() + Seq::<AreaRowV>::empty() =~= out.deep_view());
    }
    Some((out, cur))
}

/// `n` more rows of the street table.
pub open spec fn parse_streets_n(b: Seq<u8>, pos: int, n: nat) -> Option<(Seq<StreetRowV>, int)>
    decreases n,
{
    if n == 0 {
        Some((Seq::empty(), pos))
    } else {
        match parse_street_row(b, pos) {
            Some((row, next)) => match parse_streets_n(b, next, (n - 1) as nat) {
                Some((rest, next2)) => Some((seq![row] + rest, next2)),
                None => None,
            },
            None => None,
        }
    }
}

/// The street table: a 64-bit count, then that many rows.
pub open spec fn parse_streets_table(b: Seq<u8>, pos: int) -> Option<(Seq<StreetRowV>, int)> {
    match parse_u64(b, pos) {
        Some((n, next)) => parse_streets_n(b, next, n as nat),
        None => None,
    }
}

/// Read the street table.
#[verifier::loop_isolation(false)]
pub fn read_streets_table(b: &Vec<u8>, pos: usize) -> (r: Option<(Vec<StreetRow>, usize)>)
    ensures
        match r {
            Some((v, next)) => parse_streets_table(b@, pos as int) == Some(
                (v.deep_view(), next as int),
            ),
            None => parse_streets_table(b@, pos as int) is None,
        },
{
    let (n, next) = match read_u64(b, pos) {
        Some(x) => x,
        None => {
            return None;
        },
    };
    let mut out: Vec<StreetRow> = Vec::new();
    let mut cur: usize = next;
    let mut i: u64 = 0;
    while i < n
        invariant
            0 <= i <= n,
            parse_streets_n(b@, next as int, n as nat) == (match parse_streets_n(
                b@,
                cur as int,
                (n - i) as nat,
            ) {
                Some((rest, fin)) => Some((out.deep_view() + rest, fin)),
                None => None::<(Seq<StreetRowV>, int)>,
            }),
        decreases n - i,
    {
        let (row, next2) = match read_street_row(b, cur) {
            Some(x) => x,
            None => {
                return None;
            },
        };
        let ghost pre = out.deep_view();
        let ghost rowv = row.deep_view();
        out.push(row);
        proof {
            assert(out.deep_view() =~= pre.push(rowv));
            assert forall|rest: Seq<StreetRowV>| true implies pre + (seq![rowv] + rest) =~= out.deep_view()
                + rest by {}
        }
        cur = next2;
        i += 1;
    }
    proof {
        assert(parse_streets_n(b@, cur as int, 0) == Some((Seq::<StreetRowV>::empty(), cur as int)));
        assert(out.deep_view() + Seq::<StreetRowV>::empty() =~= out.deep_view());
    }
    Some((out, cur))
}

/// `n` more rows of the vertex-list table.
pub open spec fn parse_polys_n(b: Seq<u8>, pos: int, n: nat) -> Option<(Seq<PolyRowV>, int)>
    decreases n,
{
    if n == 0 {
        Some((Seq::empty(), pos))
    } else {
        match parse_poly_row(b, pos) {
            Some((row, next)) => match parse_polys_n(b, next, (n - 1) as nat) {
                Some((rest, next2)) => Some((seq![row] + rest, next2)),
                None => None,
            },
            None => None,
        }
    }
}

/// The vertex-list table: a 64-bit count, then that many rows.
pub open spec fn parse_polys_table(b: Seq<u8>, pos: int) -> Option<(Seq<PolyRowV>, int)> {
    match parse_u64(b, pos) {
        Some((n, next)) => parse_polys_n(b, next, n as nat),
        None => None,
    }
}

/// Read the vertex-list table.
#[verifier::loop_isolation(false)]
pub fn read_polys_table(b: &Vec<u8>, pos: usize) -> (r: Option<(Vec<PolyRow>, usize)>)
    ensures
        match r {
            Some((v, next)) => parse_polys_table(b@, pos as int) == Some(
                (v.deep_view(), next as int),
            ),
            None => parse_polys_table(b@, pos as int) is None,
        },
{
    let (n, next) = match read_u64(b, pos) {
        Some(x) => x,
        None => {
            return None;
        },
    };
    let mut out: Vec<PolyRow> = Vec::new();
    let mut cur: usize = next;
    let mut i: u64 = 0;
    while i < n
        invariant
            0 <= i <= n,
            parse_polys_n(b@, next as int, n as nat) == (match parse_polys_n(
                b@,
                cur as int,
                (n - i) as nat,
            ) {
                Some((rest, fin)) => Some((out.deep_view() + rest, fin)),
                None => None::<(Seq<PolyRowV>, int)>,
            }),
        decreases n - i,
    {
        let (row, next2) = match read_poly_row(b, cur) {
            Some(x) => x,
            None => {
                return None;
            },
        };
        let ghost pre = out.deep_view();
        let ghost rowv = row.deep_view();
        out.push(row);
        proof {
            assert(out.deep_view() =~= pre.push(rowv));
            assert forall|rest: Seq<PolyRowV>| true implies pre + (seq![rowv] + rest) =~= out.deep_view()
                + rest by {}
        }
        cur = next2;
        i += 1;
    }
    proof {
        assert(parse_polys_n(b@, cur as int, 0) == Some((Seq::<PolyRowV>::empty(), cur as int)));
        assert(out.deep_view() + Seq::<PolyRowV>::empty() =~= out.deep_view());
    }
    Some((out, cur))
}

/// `n` more rows of the address table.
pub open spec fn parse_addresses_n(b: Seq<u8>, pos: int, n: nat) -> Option<(Seq<AddressV>, int)>
    decreases n,
{
    if n == 0 {
        Some((Seq::empty(), pos))
    } else {
        match parse_address_row(b, pos) {
            Some((row, next)) => match parse_addresses_n(b, next, (n - 1) as nat) {
                Some((rest, next2)) => Some((seq![row] + rest, next2)),
                None => None,
            },
            None => None,
        }
    }
}

/// The address table: a 64-bit count, then that many rows.
pub open spec fn parse_addresses_table(b: Seq<u8>, pos: int) -> Option<(Seq<AddressV>, int)> {
    match parse_u64(b, pos) {
        Some((n, next)) => parse_addresses_n(b, next, n as nat),
        None => None,
    }
}

/// Read the address table.
#[verifier::loop_isolation(false)]
pub fn read_addresses_table(b: &Vec<u8>, pos: usize) -> (r: Option<(Vec<Address>, usize)>)
    ensures
        match r {
            Some((v, next)) => parse_addresses_table(b@, pos as int) == Some(
                (v.deep_view(), next as int),
            ),
            None => parse_addresses_table(b@, pos as int) is None,
        },
{
    let (n, next) = match read_u64(b, pos) {
        Some(x) => x,
        None => {
            return None;
        },
    };
    let mut out: Vec<Address> = Vec::new();
    let mut cur: usize = next;
    let mut i: u64 = 0;
    while i < n
        invariant
            0 <= i <= n,
            parse_addresses_n(b@, next as int, n as nat) == (match parse_addresses_n(
                b@,
                cur as int,
                (n - i) as nat,
            ) {
                Some((rest, fin)) => Some((out.deep_view() + rest, fin)),
                None => None::<(Seq<AddressV>, int)>,
            }),
        decreases n - i,
    {
        let (row, next2) = match read_address_row(b, cur) {
            Some(x) => x,
            None => {
                return None;
            },
        };
        let ghost pre = out.deep_view();
        let ghost rowv = row.deep_view();
        out.push(row);
        proof {
            assert(out.deep_view() =~= pre.push(rowv));
            assert forall|rest: Seq<AddressV>| true implies pre + (seq![rowv] + rest) =~= out.deep_view()
                + rest by {}
        }
        cur = next2;
        i += 1;
    }
    proof {
        assert(parse_addresses_n(b@, cur as int, 0) == Some((Seq::<AddressV>::empty(), cur as int)));
        assert(out.deep_view() + Seq::<AddressV>::empty() =~= out.deep_view());
    }
    Some((out, cur))
}

/// `n` more rows of the team table.
pub open spec fn parse_teams_n(b: Seq<u8>, pos: int, n: nat) -> Option<(Seq<TeamRow>, int)>
    decreases n,
{
    if n == 0 {
        Some((Seq::empty(), pos))
    } else {
        match parse_team_row(b, pos) {
            Some((row, next)) => match parse_teams_n(b, next, (n - 1) as nat) {
                Some((rest, next2)) => Some((seq![row] + rest, next2)),
                None => None,
            },
            None => None,
        }
    }
}

/// The team table: a 64-bit count, then that many rows.
pub open spec fn parse_teams_table(b: Seq<u8>, pos: int) -> Option<(Seq<TeamRow>, int)> {
    match parse_u64(b, pos) {
        Some((n, next)) => parse_teams_n(b, next, n as nat),
        None => None,
    }
}

/// Read the team table.
#[verifier::loop_isolation(false)]
pub fn read_teams_table(b: &Vec<u8>, pos: usize) -> (r: Option<(Vec<TeamRow>, usize)>)
    ensures
        match r {
            Some((v, next)) => parse_teams_table(b@, pos as int) == Some(
                (v.deep_view(), next as int),
            ),
            None => parse_teams_table(b@, pos as int) is None,
        },
{
    let (n, next) = match read_u64(b, pos) {
        Some(x) => x,
        None => {
            return None;
        },
    };
    let mut out: Vec<TeamRow> = Vec::new();
    let mut cur: usize = next;
    let mut i: u64 = 0;
    while i < n
        invariant
            0 <= i <= n,
            parse_teams_n(b@, next as int, n as nat) == (match parse_teams_n(
                b@,
                cur as int,
                (n - i) as nat,
            ) {
                Some((rest, fin)) => Some((out.deep_view() + rest, fin)),
                None => None::<(Seq<TeamRow>, int)>,
            }),
        decreases n - i,
    {
        let (row, next2) = match read_team_row(b, cur) {
            Some(x) => x,
            None => {
                return None;
            },
        };
        let ghost pre = out.deep_view();
        let ghost rowv = row.deep_view();
        out.push(row);
        proof {
            assert(out.deep_view() =~= pre.push(rowv));
            assert forall|rest: Seq<TeamRow>| true implies pre + (seq![rowv] + rest) =~= out.deep_view()
                + rest by {}
        }
        cur = next2;
        i += 1;
    }
    proof {
        assert(parse_teams_n(b@, cur as int, 0) == Some((Seq::<TeamRow>::empty(), cur as int)));
        assert(out.deep_view() + Seq::<TeamRow>::empty() =~= out.deep_view());
    }
    Some((out, cur))
}

/// `n` more rows of the assignment table.
pub open spec fn parse_assigns_n(b: Seq<u8>, pos: int, n: nat) -> Option<(Seq<AssignRow>, int)>
    decreases n,
{
    if n == 0 {
        Some((Seq::empty(), pos))
    } else {
        match parse_assign_row(b, pos) {
            Some((row, next)) => match parse_assigns_n(b, next, (n - 1) as nat) {
                Some((rest, next2)) => Some((seq![row] + rest, next2)),
                None => None,
            },
            None => None,
        }
    }
}

/// The assignment table: a 64-bit count, then that many rows.
pub open spec fn parse_assigns_table(b: Seq<u8>, pos: int) -> Option<(Seq<AssignRow>, int)> {
    match parse_u64(b, pos) {
        Some((n, next)) => parse_assigns_n(b, next, n as nat),
        None => None,
    }
}

/// Read the assignment table.
#[verifier::loop_isolation(false)]
pub fn read_assigns_table(b: &Vec<u8>, pos: usize) -> (r: Option<(Vec<AssignRow>, usize)>)
    ensures
        match r {
            Some((v, next)) => parse_assigns_table(b@, pos as int) == Some(
                (v.deep_view(), next as int),
            ),
            None => parse_assigns_table(b@, pos as int) is None,
        },
{
    let (n, next) = match read_u64(b, pos) {
        Some(x) => x,
        None => {
            return None;
        },
    };
    let mut out: Vec<AssignRow> = Vec::new();
    let mut cur: usize = next;
    let mut i: u64 = 0;
    while i < n
        invariant
            0 <= i <= n,
            parse_assigns_n(b@, next as int, n as nat) == (match parse_assigns_n(
                b@,
                cur as int,
                (n - i) as nat,
            ) {
                Some((rest, fin)) => Some((out.deep_view() + rest, fin)),
                None => None::<(Seq<AssignRow>, int)>,
            }),
        decreases n - i,
    {
        let (row, next2) = match read_assign_row(b, cur) {
            Some(x) => x,
            None => {
                return None;
            },
        };
        let ghost pre = out.deep_view();
        let ghost rowv = row.deep_view();
        out.push(row);
        proof {
            assert(out.deep_view() =~= pre.push(rowv));
            assert forall|rest: Seq<AssignRow>| true implies pre + (seq![rowv] + rest) =~= out.deep_view()
                + rest by {}
        }
        cur = next2;
        i += 1;
    }
    proof {
        assert(parse_assigns_n(b@, cur as int, 0) == Some((Seq::<AssignRow>::empty(), cur as int)));
        assert(out.deep_view() + Seq::<AssignRow>::empty() =~= out.deep_view());
    }
    Some((out, cur))
}

/// `n` more rows of the raster table.
pub open spec fn parse_images_n(b: Seq<u8>, pos: int, n: nat) -> Option<(Seq<ImageEntryV>, int)>
    decreases n,
{
    if n == 0 {
        Some((Seq::empty(), pos))
    } else {
        match parse_image_entry(b, pos) {
            Some((row, next)) => match parse_images_n(b, next, (n - 1) as nat) {
                Some((rest, next2)) => Some((seq![row] + rest, next2)),
                None => None,
            },
            None => None,
        }
    }
}

/// The raster table: a 64-bit count, then that many rows.
pub open spec fn parse_images_table(b: Seq<u8>, pos: int) -> Option<(Seq<ImageEntryV>, int)> {
    match parse_u64(b, pos) {
        Some((n, next)) => parse_images_n(b, next, n as nat),
        None => None,
    }
}

/// Read the raster table.
#[verifier::loop_isolation(false)]
pub fn read_images_table(b: &Vec<u8>, pos: usize) -> (r: Option<(Vec<ImageEntry>, usize)>)
    ensures
        match r {
            Some((v, next)) => parse_images_table(b@, pos as int) == Some(
                (v.deep_view(), next as int),
            ),
            None => parse_images_table(b@, pos as int) is None,
        },
{
    let (n, next) = match read_u64(b, pos) {
        Some(x) => x,
        None => {
            return None;
        },
    };
    let mut out: Vec<ImageEntry> = Vec::new();
    let mut cur: usize = next;
    let mut i: u64 = 0;
    while i < n
        invariant
            0 <= i <= n,
            parse_images_n(b@, next as int, n as nat) == (match parse_images_n(
                b@,
                cur as int,
                (n - i) as nat,
            ) {
                Some((rest, fin)) => Some((out.deep_view() + rest, fin)),
                None => None::<(Seq<ImageEntryV>, int)>,
            }),
        decreases n - i,
    {
        let (row, next2) = match read_image_entry(b, cur) {
            Some(x) => x,
            None => {
                return None;
            },
        };
        let ghost pre = out.deep_view();
        let ghost rowv = row.deep_view();
        out.push(row);
        proof {
            assert(out.deep_view() =~= pre.push(rowv));
            assert forall|rest: Seq<ImageEntryV>| true implies pre + (seq![rowv] + rest) =~= out.deep_view()
                + rest by {}
        }
        cur = next2;
        i += 1;
    }
    proof {
        assert(parse_images_n(b@, cur as int, 0) == Some((Seq::<ImageEntryV>::empty(), cur as int)));
        assert(out.deep_view() + Seq::<ImageEntryV>::empty() =~= out.deep_view());
    }
    Some((out, cur))
}


/// A whole store: its eight tables in a fixed order.
pub open spec fn parse_store_v(b: Seq<u8>, pos: int) -> Option<(StoreView, int)> {
    match parse_meta_table(b, pos) {
        Some((meta, p1)) => match parse_areas_table(b, p1) {
            Some((areas, p2)) => match parse_streets_table(b, p2) {
                Some((streets, p3)) => match parse_polys_table(b, p3) {
                    Some((street_polylines, p4)) => match parse_addresses_table(b, p4) {
                        Some((addresses, p5)) => match parse_teams_table(b, p5) {
                            Some((teams, p6)) => match parse_assigns_table(b, p6) {
                                Some((assignments, p7)) => match parse_polys_table(b, p7) {
                                    Some((team_bounds, p8)) => Some(
                                        (
                                            StoreView {
                                                meta,
                                                areas,
                                                streets,
                                                street_polylines,
                                                addresses,
                                                teams,
                                                assignments,
                                                team_bounds,
                                            },
                                            p8,
                                        ),
                                    ),
                                    None => None,
                                },
                                None => None,
                            },
                            None => None,
                        },
                        None => None,
                    },
                    None => None,
                },
                None => None,
            },
            None => None,
        },
        None => None,
    }
}

/// Read a whole store.
pub fn read_store(b: &Vec<u8>, pos: usize) -> (r: Option<(WorkingStore, usize)>)
    ensures
        match r {
            Some((s, next)) => parse_store_v(b@, pos as int) == Some((s@, next as int)),
            None => parse_store_v(b@, pos as int) is None,
        },
{
    let (meta, p1) = match read_meta_table(b, pos) {
        Some(x) => x,
        None => {
            return None;
        },
    };
    let (areas, p2) = match read_areas_table(b, p1) {
        Some(x) => x,
        None => {
            return None;
        },
    };
    let (streets, p3) = match read_streets_table(b, p2) {
        Some(x) => x,
        None => {
            return None;
        },
    };
    let (street_polylines, p4) = match read_polys_table(b, p3) {
        Some(x) => x,
        None => {
            return None;
        },
    };
    let (addresses, p5) = match read_addresses_table(b, p4) {
        Some(x) => x,
        None => {
            return None;
        },
    };
    let (teams, p6) = match read_teams_table(b, p5) {
        Some(x) => x,
        None => {
            return None;
        },
    };
    let (assignments, p7) = match read_assigns_table(b, p6) {
        Some(x) => x,
        None => {
            return None;
        },
    };
    let (team_bounds, p8) = match read_polys_table(b, p7) {
        Some(x) => x,
        None => {
            return None;
        },
    };
    let s = WorkingStore::from_tables(
        meta,
        areas,
        streets,
        street_polylines,
        addresses,
        teams,
        assignments,
        team_bounds,
    );
    Some((s, p8))
}

/// The content of an opened archive: the store and its raster files.
pub struct ContentV {
    pub store: StoreView,
    pub images: Seq<ImageEntryV>,
}

/// What a decompressed archive holds.  Two presence bytes lead: both
/// set, the store and the raster table follow and every byte must be
/// consumed and the store well-formed; both clear, the archive is a
/// fresh empty project; one without the other is the partial layout the
/// engine refuses.
pub open spec fn spec_parse_container(raw: Seq<u8>) -> Result<ContentV, StoreError> {
    match parse_u8(raw, 0) {
        None => Err(StoreError::CorruptArchive),
        Some((db_tag, p1)) => match parse_u8(raw, p1) {
            None => Err(StoreError::CorruptArchive),
            Some((img_tag, p2)) => {
                if db_tag == 1 && img_tag == 1 {
                    match parse_store_v(raw, p2) {
                        None => Err(StoreError::CorruptArchive),
                        Some((store, p3)) => match parse_images_table(raw, p3) {
                            None => Err(StoreError::CorruptArchive),
                            Some((images, p4)) => if p4 == raw.len() {
                                if store.wf() {
                                    Ok(ContentV { store, images })
                                } else {
                                    Err(StoreError::CorruptArchive)
                                }
                            } else {
                                Err(StoreError::CorruptArchive)
                            },
                        },
                    }
                } else if db_tag == 0 && img_tag == 0 {
                    if raw.len() == 2 {
                        Ok(ContentV { store: StoreView::empty(), images: Seq::empty() })
                    } else {
                        Err(StoreError::CorruptArchive)
                    }
                } else if db_tag <= 1 && img_tag <= 1 {
                    Err(StoreError::PartialLayout)
                } else {
                    Err(StoreError::CorruptArchive)
                }
            },
        },
    }
}

/// What an archive file holds: the container, behind the compressor.
pub open spec fn spec_open_archive(archive: Seq<u8>) -> Result<ContentV, StoreError> {
    match crate::outside::zstd_decode_of(archive) {
        None => Err(StoreError::CorruptArchive),
        Some(raw) => spec_parse_container(raw),
    }
}

/// Read a decompressed archive, exactly as the specification accepts it.
pub fn read_container(raw: &Vec<u8>) -> (r: Result<(WorkingStore, Vec<ImageEntry>), StoreError>)
    ensures
        match r {
            Ok((s, imgs)) => spec_parse_container(raw@) == Ok::<ContentV, StoreError>(
                ContentV { store: s@, images: imgs.deep_view() },
            ) && s@.wf(),
            Err(e) => spec_parse_container(raw@) == Err::<ContentV, StoreError>(e),
        },
{
    let (db_tag, p1) = match read_u8(raw, 0) {
        Some(x) => x,
        None => {
            return Err(StoreError::CorruptArchive);
        },
    };
    let (img_tag, p2) = match read_u8(raw, p1) {
        Some(x) => x,
        None => {
            return Err(StoreError::CorruptArchive);
        },
    };
    if db_tag == 1 && img_tag == 1 {
        let (store, p3) = match read_store(raw, p2) {
            Some(x) => x,
            None => {
                return Err(StoreError::CorruptArchive);
            },
        };
        let (images, p4) = match read_images_table(raw, p3) {
            Some(x) => x,
            None => {
                return Err(StoreError::CorruptArchive);
            },
        };
        if p4 != raw.len() {
            return Err(StoreError::CorruptArchive);
        }
        if !store.check_wf() {
            return Err(StoreError::CorruptArchive);
        }
        Ok((store, images))
    } else if db_tag == 0 && img_tag == 0 {
        if raw.len() != 2 {
            return Err(StoreError::CorruptArchive);
        }
        let s = WorkingStore::new();
        let imgs: Vec<ImageEntry> = Vec::new();
        proof {
            assert(s@ == StoreView::empty());
            assert(StoreView::empty().wf());
            assert(imgs.deep_view() =~= Seq::<ImageEntryV>::empty());
        }
        Ok((s, imgs))
    } else if db_tag <= 1 && img_tag <= 1 {
        Err(StoreError::PartialLayout)
    } else {
        Err(StoreError::CorruptArchive)
    }
}

/// Prefixes chain: a prefix of a prefix is a prefix.
pub proof fn lemma_prefix_trans(a: Seq<u8>, b: Seq<u8>, c: Seq<u8>)
    requires
        a.is_prefix_of(b),
        b.is_prefix_of(c),
    ensures
        a.is_prefix_of(c),
{
    assert forall|i: int| 0 <= i < a.len() implies a[i] == #[trigger] c.subrange(
        0,
        a.len() as int,
    )[i] by {
        assert(a[i] == b.subrange(0, b.len() as int)[i]);
    }
    assert(a =~= c.subrange(0, a.len() as int));
}

/// Append one little-endian 64-bit number.
fn write_u64(out: &mut Vec<u8>, x: u64)
    ensures
        final(out)@.len() == old(out)@.len() + 8,
        old(out)@.is_prefix_of(final(out)@),
        forall|b: Seq<u8>|
            final(out)@.is_prefix_of(b) ==> #[trigger] parse_u64(b, old(out)@.len() as int)
                == Some((x, final(out)@.len() as int)),
{
    let ghost p0 = out@;
    let mut b = u64_to_le_bytes(x);
    out.append(&mut b);
    proof {
        assert(out@ =~= p0 + vstd::bytes::spec_u64_to_le_bytes(x));
        assert(p0.is_prefix_of(out@));
        vstd::bytes::lemma_auto_spec_u64_to_from_le_bytes();
        assert forall|bb: Seq<u8>| out@.is_prefix_of(bb) implies #[trigger] parse_u64(
            bb,
            p0.len() as int,
        ) == Some((x, out@.len() as int)) by {
            assert forall|i: int|
                0 <= i < 8 implies #[trigger] bb.subrange(p0.len() as int, p0.len() as int + 8)[i]
                == vstd::bytes::spec_u64_to_le_bytes(x)[i] by {
                assert(out@[p0.len() + i] == bb.subrange(0, out@.len() as int)[p0.len() + i]);
            }
            assert(bb.subrange(p0.len() as int, p0.len() as int + 8)
                =~= vstd::bytes::spec_u64_to_le_bytes(x));
        }
    }
}

/// Append one signed 64-bit number as its bit pattern.
fn write_i64(out: &mut Vec<u8>, x: i64)
    ensures
        final(out)@.len() == old(out)@.len() + 8,
        old(out)@.is_prefix_of(final(out)@),
        forall|b: Seq<u8>|
            final(out)@.is_prefix_of(b) ==> #[trigger] parse_i64(b, old(out)@.len() as int)
                == Some((x, final(out)@.len() as int)),
{
    write_u64(out, x as u64);
    proof {
        assert((x as u64) as i64 == x) by (bit_vector);
    }
}

/// Append one little-endian 32-bit number.
fn write_u32(out: &mut Vec<u8>, x: u32)
    ensures
        final(out)@.len() == old(out)@.len() + 4,
        old(out)@.is_prefix_of(final(out)@),
        forall|b: Seq<u8>|
            final(out)@.is_prefix_of(b) ==> #[trigger] parse_u32(b, old(out)@.len() as int)
                == Some((x, final(out)@.len() as int)),
{
    let ghost p0 = out@;
    let mut b = u32_to_le_bytes(x);
    out.append(&mut b);
    proof {
        assert(p0.is_prefix_of(out@));
        vstd::bytes::lemma_auto_spec_u32_to_from_le_bytes();
        assert forall|bb: Seq<u8>| out@.is_prefix_of(bb) implies #[trigger] parse_u32(
            bb,
            p0.len() as int,
        ) == Some((x, out@.len() as int)) by {
            assert forall|i: int|
                0 <= i < 4 implies #[trigger] bb.subrange(p0.len() as int, p0.len() as int + 4)[i]
                == vstd::bytes::spec_u32_to_le_bytes(x)[i] by {
                assert(out@[p0.len() + i] == bb.subrange(0, out@.len() as int)[p0.len() + i]);
            }
            assert(bb.subrange(p0.len() as int, p0.len() as int + 4)
                =~= vstd::bytes::spec_u32_to_le_bytes(x));
        }
    }
}

/// Append one little-endian 16-bit number.
fn write_u16(out: &mut Vec<u8>, x: u16)
    ensures
        final(out)@.len() == old(out)@.len() + 2,
        old(out)@.is_prefix_of(final(out)@),
        forall|b: Seq<u8>|
            final(out)@.is_prefix_of(b) ==> #[trigger] parse_u16(b, old(out)@.len() as int)
                == Some((x, final(out)@.len() as int)),
{
    let ghost p0 = out@;
    let mut b = u16_to_le_bytes(x);
    out.append(&mut b);
    proof {
        assert(p0.is_prefix_of(out@));
        vstd::bytes::lemma_auto_spec_u16_to_from_le_bytes();
        assert forall|bb: Seq<u8>| out@.is_prefix_of(bb) implies #[trigger] parse_u16(
            bb,
            p0.len() as int,
        ) == Some((x, out@.len() as int)) by {
            assert forall|i: int|
                0 <= i < 2 implies #[trigger] bb.subrange(p0.len() as int, p0.len() as int + 2)[i]
                == vstd::bytes::spec_u16_to_le_bytes(x)[i] by {
                assert(out@[p0.len() + i] == bb.subrange(0, out@.len() as int)[p0.len() + i]);
            }
            assert(bb.subrange(p0.len() as int, p0.len() as int + 2)
                =~= vstd::bytes::spec_u16_to_le_bytes(x));
        }
    }
}

/// Append one byte.
fn write_u8(out: &mut Vec<u8>, x: u8)
    ensures
        final(out)@.len() == old(out)@.len() + 1,
        old(out)@.is_prefix_of(final(out)@),
        forall|b: Seq<u8>|
            final(out)@.is_prefix_of(b) ==> #[trigger] parse_u8(b, old(out)@.len() as int) == Some(
                (x, final(out)@.len() as int),
            ),
{
    let ghost p0 = out@;
    out.push(x);
    proof {
        assert(p0.is_prefix_of(out@));
        assert forall|bb: Seq<u8>| out@.is_prefix_of(bb) implies #[trigger] parse_u8(
            bb,
            p0.len() as int,
        ) == Some((x, out@.len() as int)) by {
            assert(bb.subrange(0, out@.len() as int)[p0.len() as int] == x);
        }
    }
}

/// Append one boolean byte.
fn write_bool(out: &mut Vec<u8>, v: bool)
    ensures
        old(out)@.is_prefix_of(final(out)@),
        forall|b: Seq<u8>|
            final(out)@.is_prefix_of(b) ==> #[trigger] parse_bool(b, old(out)@.len() as int)
                == Some((v, final(out)@.len() as int)),
{
    write_u8(
        out,
        if v {
            1
        } else {
            0
        },
    );
}

/// Append a length-prefixed byte string.
fn write_bytes(out: &mut Vec<u8>, data: &Vec<u8>)
    ensures
        old(out)@.is_prefix_of(final(out)@),
        forall|b: Seq<u8>|
            final(out)@.is_prefix_of(b) ==> #[trigger] parse_bytes(b, old(out)@.len() as int)
                == Some((data@, final(out)@.len() as int)),
{
    let ghost p0 = out@;
    write_u64(out, data.len() as u64);
    let ghost p1 = out@;
    let mut copy = copy_bytes(data);
    out.append(&mut copy);
    proof {
        assert(out@ =~= p1 + data@);
        assert(p1.is_prefix_of(out@));
        lemma_prefix_trans(p0, p1, out@);
        assert forall|bb: Seq<u8>| out@.is_prefix_of(bb) implies #[trigger] parse_bytes(
            bb,
            p0.len() as int,
        ) == Some((data@, out@.len() as int)) by {
            lemma_prefix_trans(p1, out@, bb);
            assert(parse_u64(bb, p0.len() as int) == Some((data.len() as u64, p1.len() as int)));
            assert forall|i: int| 0 <= i < data@.len() implies #[trigger] bb.subrange(
                p1.len() as int,
                p1.len() as int + data@.len() as int,
            )[i] == data@[i] by {
                assert(bb.subrange(0, out@.len() as int)[p1.len() + i] == out@[p1.len() + i]);
            }
            assert(bb.subrange(p1.len() as int, p1.len() as int + data@.len() as int) =~= data@);
        }
    }
}

/// Copy a byte vector.
#[verifier::loop_isolation(false)]
pub(crate) fn copy_bytes(v: &Vec<u8>) -> (r: Vec<u8>)
    ensures
        r@ == v@,
{
    let mut out: Vec<u8> = Vec::new();
    let mut i: usize = 0;
    while i < v.len()
        invariant
            0 <= i <= v.len(),
            out@ =~= v@.take(i as int),
        decreases v.len() - i,
    {
        out.push(v[i]);
        proof {
            assert(out@ =~= v@.take(i as int + 1));
        }
        i += 1;
    }
    proof {
        assert(v@.take(v@.len() as int) =~= v@);
    }
    out
}

/// Append a length-prefixed text string as UTF-8.
fn write_string(out: &mut Vec<u8>, s: &String)
    ensures
        old(out)@.is_prefix_of(final(out)@),
        forall|b: Seq<u8>|
            final(out)@.is_prefix_of(b) ==> #[trigger] parse_string(b, old(out)@.len() as int)
                == Some((s@, final(out)@.len() as int)),
{
    let bytes = s.as_str().as_bytes_vec();
    write_bytes(out, &bytes);
    proof {
        vstd::utf8::encode_utf8_valid_utf8(s@);
        vstd::utf8::encode_utf8_decode_utf8(s@);
    }
}

/// Append an optional text string.
fn write_opt_string(out: &mut Vec<u8>, s: &Option<String>)
    ensures
        old(out)@.is_prefix_of(final(out)@),
        forall|b: Seq<u8>|
            final(out)@.is_prefix_of(b) ==> #[trigger] parse_opt_string(b, old(out)@.len() as int)
                == Some((s.deep_view(), final(out)@.len() as int)),
{
    let ghost p0 = out@;
    match s {
        Some(v) => {
            write_u8(out, 1);
            let ghost p1 = out@;
            write_string(out, v);
            proof {
                lemma_prefix_trans(p0, p1, out@);
                assert forall|bb: Seq<u8>| out@.is_prefix_of(bb) implies #[trigger] parse_opt_string(
                    bb,
                    p0.len() as int,
                ) == Some((s.deep_view(), out@.len() as int)) by {
                    lemma_prefix_trans(p1, out@, bb);
                    assert(parse_u8(bb, p0.len() as int) == Some((1u8, p1.len() as int)));
                    assert(parse_string(bb, p1.len() as int) == Some((v@, out@.len() as int)));
                }
            }
        },
        None => {
            write_u8(out, 0);
        },
    }
}

/// Append an optional 16-bit number.
fn write_opt_u16(out: &mut Vec<u8>, v: &Option<u16>)
    ensures
        old(out)@.is_prefix_of(final(out)@),
        forall|b: Seq<u8>|
            final(out)@.is_prefix_of(b) ==> #[trigger] parse_opt_u16(b, old(out)@.len() as int)
                == Some((*v, final(out)@.len() as int)),
{
    let ghost p0 = out@;
    match v {
        Some(x) => {
            write_u8(out, 1);
            let ghost p1 = out@;
            write_u16(out, *x);
            proof {
                lemma_prefix_trans(p0, p1, out@);
                assert forall|bb: Seq<u8>| out@.is_prefix_of(bb) implies #[trigger] parse_opt_u16(
                    bb,
                    p0.len() as int,
                ) == Some((*v, out@.len() as int)) by {
                    lemma_prefix_trans(p1, out@, bb);
                    assert(parse_u8(bb, p0.len() as int) == Some((1u8, p1.len() as int)));
                    assert(parse_u16(bb, p1.len() as int) == Some((*x, out@.len() as int)));
                }
            }
        },
        None => {
            write_u8(out, 0);
        },
    }
}

/// Append an optional signed 64-bit number.
fn write_opt_i64(out: &mut Vec<u8>, v: &Option<i64>)
    ensures
        old(out)@.is_prefix_of(final(out)@),
        forall|b: Seq<u8>|
            final(out)@.is_prefix_of(b) ==> #[trigger] parse_opt_i64(b, old(out)@.len() as int)
                == Some((*v, final(out)@.len() as int)),
{
    let ghost p0 = out@;
    match v {
        Some(x) => {
            write_u8(out, 1);
            let ghost p1 = out@;
            write_i64(out, *x);
            proof {
                lemma_prefix_trans(p0, p1, out@);
                assert forall|bb: Seq<u8>| out@.is_prefix_of(bb) implies #[trigger] parse_opt_i64(
                    bb,
                    p0.len() as int,
                ) == Some((*v, out@.len() as int)) by {
                    lemma_prefix_trans(p1, out@, bb);
                    assert(parse_u8(bb, p0.len() as int) == Some((1u8, p1.len() as int)));
                    assert(parse_i64(bb, p1.len() as int) == Some((*x, out@.len() as int)));
                }
            }
        },
        None => {
            write_u8(out, 0);
        },
    }
}

/// Append a point.
fn write_point(out: &mut Vec<u8>, p: Point)
    ensures
        old(out)@.is_prefix_of(final(out)@),
        forall|b: Seq<u8>|
            final(out)@.is_prefix_of(b) ==> #[trigger] parse_point(b, old(out)@.len() as int)
                == Some((p, final(out)@.len() as int)),
{
    let ghost p0 = out@;
    write_u32(out, p.x);
    let ghost p1 = out@;
    write_u32(out, p.y);
    proof {
        lemma_prefix_trans(p0, p1, out@);
        assert forall|bb: Seq<u8>| out@.is_prefix_of(bb) implies #[trigger] parse_point(
            bb,
            p0.len() as int,
        ) == Some((p, out@.len() as int)) by {
            lemma_prefix_trans(p1, out@, bb);
            assert(parse_u32(bb, p0.len() as int) == Some((p.x, p1.len() as int)));
            assert(parse_u32(bb, p1.len() as int) == Some((p.y, out@.len() as int)));
        }
    }
}

/// Append a length-prefixed vertex list.
#[verifier::loop_isolation(false)]
fn write_points(out: &mut Vec<u8>, points: &Vec<Point>)
    ensures
        old(out)@.is_prefix_of(final(out)@),
        forall|b: Seq<u8>|
            final(out)@.is_prefix_of(b) ==> #[trigger] parse_points(b, old(out)@.len() as int)
                == Some((points@, final(out)@.len() as int)),
{
    let ghost p0 = out@;
    let n = points.len();
    write_u64(out, n as u64);
    let ghost after_count = out@;
    let ghost body_start = out@.len() as int;
    let mut i: usize = 0;
    while i < n
        invariant
            0 <= i <= n,
            old(out)@.is_prefix_of(out@),
            after_count.is_prefix_of(out@),
            forall|b: Seq<u8>|
                out@.is_prefix_of(b) ==> #[trigger] parse_points_n(b, body_start, n as nat) == (
                match parse_points_n(b, out@.len() as int, (n - i) as nat) {
                    Some((rest, fin)) => Some((points@.take(i as int) + rest, fin)),
                    None => None,
                }),
        decreases n - i,
    {
        let ghost pre = out@;
        write_point(out, points[i]);
        proof {
            lemma_prefix_trans(old(out)@, pre, out@);
            lemma_prefix_trans(after_count, pre, out@);
            assert forall|b: Seq<u8>| out@.is_prefix_of(b) implies #[trigger] parse_points_n(
                b,
                body_start,
                n as nat,
            ) == (match parse_points_n(b, out@.len() as int, (n - i - 1) as nat) {
                Some((rest, fin)) => Some((points@.take(i as int + 1) + rest, fin)),
                None => None,
            }) by {
                lemma_prefix_trans(pre, out@, b);
                assert(parse_point(b, pre.len() as int) == Some(
                    (points@[i as int], out@.len() as int),
                ));
                match parse_points_n(b, out@.len() as int, (n - i - 1) as nat) {
                    Some((rest, fin)) => {
                        assert(parse_points_n(b, pre.len() as int, (n - i) as nat) == Some(
                            (seq![points@[i as int]] + rest, fin),
                        ));
                        assert(points@.take(i as int) + (seq![points@[i as int]] + rest)
                            =~= points@.take(i as int + 1) + rest);
                    },
                    None => {
                        assert(parse_points_n(b, pre.len() as int, (n - i) as nat) is None);
                    },
                }
            }
        }
        i += 1;
    }
    proof {
        assert forall|b: Seq<u8>| out@.is_prefix_of(b) implies #[trigger] parse_points(
            b,
            p0.len() as int,
        ) == Some((points@, out@.len() as int)) by {
            lemma_prefix_trans(after_count, out@, b);
            assert(parse_u64(b, p0.len() as int) == Some((n as u64, body_start)));
            assert(parse_points_n(b, out@.len() as int, 0) == Some(
                (Seq::<Point>::empty(), out@.len() as int),
            ));
            assert(points@.take(n as int) + Seq::<Point>::empty() =~= points@);
        }
    }
}


/// Append a metadata row.
fn write_meta_row(out: &mut Vec<u8>, row: &MetaRow)
    ensures
        old(out)@.is_prefix_of(final(out)@),
        forall|b: Seq<u8>|
            final(out)@.is_prefix_of(b) ==> #[trigger] parse_meta_row(b, old(out)@.len() as int)
                == Some((row@, final(out)@.len() as int)),
{
    let ghost p0 = out@;
    write_string(out, &row.key);
    let ghost p1 = out@;
    write_string(out, &row.value);
    proof {
        lemma_prefix_trans(p0, p1, out@);
        assert forall|b: Seq<u8>| out@.is_prefix_of(b) implies #[trigger] parse_meta_row(
            b,
            p0.len() as int,
        ) == Some((row@, out@.len() as int)) by {
            lemma_prefix_trans(p1, out@, b);
            assert(parse_string(b, p0.len() as int) == Some((row.key@, p1.len() as int)));
            assert(parse_string(b, p1.len() as int) == Some((row.value@, out@.len() as int)));
        }
    }
}

/// Append an area row.
fn write_area_row(out: &mut Vec<u8>, row: &AreaRow)
    ensures
        old(out)@.is_prefix_of(final(out)@),
        forall|b: Seq<u8>|
            final(out)@.is_prefix_of(b) ==> #[trigger] parse_area_row(b, old(out)@.len() as int)
                == Some((row@, final(out)@.len() as int)),
{
    let ghost p0 = out@;
    write_i64(out, row.id);
    let ghost p1 = out@;
    write_string(out, &row.name);
    let ghost p2 = out@;
    write_u8(out, row.color.r);
    let ghost p3 = out@;
    write_u8(out, row.color.g);
    let ghost p4 = out@;
    write_u8(out, row.color.b);
    let ghost p5 = out@;
    write_u8(out, row.state.to_code());
    let ghost p6 = out@;
    write_string(out, &row.image_fname);
    proof {
        lemma_prefix_trans(p5, p6, out@);
        lemma_prefix_trans(p4, p5, out@);
        lemma_prefix_trans(p3, p4, out@);
        lemma_prefix_trans(p2, p3, out@);
        lemma_prefix_trans(p1, p2, out@);
        lemma_prefix_trans(p0, p1, out@);
        crate::model::lemma_area_state_code_round_trip(row.state, 0);
        assert forall|b: Seq<u8>| out@.is_prefix_of(b) implies #[trigger] parse_area_row(
            b,
            p0.len() as int,
        ) == Some((row@, out@.len() as int)) by {
            lemma_prefix_trans(p1, out@, b);
            lemma_prefix_trans(p2, out@, b);
            lemma_prefix_trans(p3, out@, b);
            lemma_prefix_trans(p4, out@, b);
            lemma_prefix_trans(p5, out@, b);
            lemma_prefix_trans(p6, out@, b);
            assert(parse_i64(b, p0.len() as int) == Some((row.id, p1.len() as int)));
            assert(parse_string(b, p1.len() as int) == Some((row.name@, p2.len() as int)));
            assert(parse_u8(b, p2.len() as int) == Some((row.color.r, p3.len() as int)));
            assert(parse_u8(b, p3.len() as int) == Some((row.color.g, p4.len() as int)));
            assert(parse_u8(b, p4.len() as int) == Some((row.color.b, p5.len() as int)));
            assert(parse_u8(b, p5.len() as int) == Some((row.state.spec_code(), p6.len() as int)));
            assert(parse_string(b, p6.len() as int) == Some((row.image_fname@, out@.len() as int)));
        }
    }
}

/// Append a street row.
fn write_street_row(out: &mut Vec<u8>, row: &StreetRow)
    ensures
        old(out)@.is_prefix_of(final(out)@),
        forall|b: Seq<u8>|
            final(out)@.is_prefix_of(b) ==> #[trigger] parse_street_row(b, old(out)@.len() as int)
                == Some((row@, final(out)@.len() as int)),
{
    let ghost p0 = out@;
    write_i64(out, row.id);
    let ghost p1 = out@;
    write_i64(out, row.area_id);
    let ghost p2 = out@;
    write_opt_string(out, &row.name);
    let ghost p3 = out@;
    write_bool(out, row.verified);
    proof {
        lemma_prefix_trans(p2, p3, out@);
        lemma_prefix_trans(p1, p2, out@);
        lemma_prefix_trans(p0, p1, out@);
        assert forall|b: Seq<u8>| out@.is_prefix_of(b) implies #[trigger] parse_street_row(
            b,
            p0.len() as int,
        ) == Some((row@, out@.len() as int)) by {
            lemma_prefix_trans(p1, out@, b);
            lemma_prefix_trans(p2, out@, b);
            lemma_prefix_trans(p3, out@, b);
            assert(parse_i64(b, p0.len() as int) == Some((row.id, p1.len() as int)));
            assert(parse_i64(b, p1.len() as int) == Some((row.area_id, p2.len() as int)));
            assert(parse_opt_string(b, p2.len() as int) == Some(
                (row.name.deep_view(), p3.len() as int),
            ));
            assert(parse_bool(b, p3.len() as int) == Some((row.verified, out@.len() as int)));
        }
    }
}

/// Append a vertex-list row.
fn write_poly_row(out: &mut Vec<u8>, row: &PolyRow)
    ensures
        old(out)@.is_prefix_of(final(out)@),
        forall|b: Seq<u8>|
            final(out)@.is_prefix_of(b) ==> #[trigger] parse_poly_row(b, old(out)@.len() as int)
                == Some((row@, final(out)@.len() as int)),
{
    let ghost p0 = out@;
    write_i64(out, row.owner_id);
    let ghost p1 = out@;
    write_points(out, &row.points);
    proof {
        lemma_prefix_trans(p0, p1, out@);
        assert forall|b: Seq<u8>| out@.is_prefix_of(b) implies #[trigger] parse_poly_row(
            b,
            p0.len() as int,
        ) == Some((row@, out@.len() as int)) by {
            lemma_prefix_trans(p1, out@, b);
            assert(parse_i64(b, p0.len() as int) == Some((row.owner_id, p1.len() as int)));
            assert(parse_points(b, p1.len() as int) == Some((row.points@, out@.len() as int)));
        }
    }
}

/// Append an address row.
fn write_address_row(out: &mut Vec<u8>, row: &Address)
    ensures
        old(out)@.is_prefix_of(final(out)@),
        forall|b: Seq<u8>|
            final(out)@.is_prefix_of(b) ==> #[trigger] parse_address_row(b, old(out)@.len() as int)
                == Some((row@, final(out)@.len() as int)),
{
    let ghost p0 = out@;
    write_i64(out, row.id);
    let ghost p1 = out@;
    write_i64(out, row.area_id);
    let ghost p2 = out@;
    write_string(out, &row.house_number);
    let ghost p3 = out@;
    write_point(out, row.position);
    let ghost p4 = out@;
    write_u32(out, row.confidence_milli);
    let ghost p5 = out@;
    write_bool(out, row.verified);
    let ghost p6 = out@;
    write_opt_u16(out, &row.estimated_flats);
    let ghost p7 = out@;
    write_u32(out, row.circle_radius);
    let ghost p8 = out@;
    write_opt_i64(out, &row.assigned_street_id);
    proof {
        lemma_prefix_trans(p7, p8, out@);
        lemma_prefix_trans(p6, p7, out@);
        lemma_prefix_trans(p5, p6, out@);
        lemma_prefix_trans(p4, p5, out@);
        lemma_prefix_trans(p3, p4, out@);
        lemma_prefix_trans(p2, p3, out@);
        lemma_prefix_trans(p1, p2, out@);
        lemma_prefix_trans(p0, p1, out@);
        assert forall|b: Seq<u8>| out@.is_prefix_of(b) implies #[trigger] parse_address_row(
            b,
            p0.len() as int,
        ) == Some((row@, out@.len() as int)) by {
            lemma_prefix_trans(p1, out@, b);
            lemma_prefix_trans(p2, out@, b);
            lemma_prefix_trans(p3, out@, b);
            lemma_prefix_trans(p4, out@, b);
            lemma_prefix_trans(p5, out@, b);
            lemma_prefix_trans(p6, out@, b);
            lemma_prefix_trans(p7, out@, b);
            lemma_prefix_trans(p8, out@, b);
            assert(parse_i64(b, p0.len() as int) == Some((row.id, p1.len() as int)));
            assert(parse_i64(b, p1.len() as int) == Some((row.area_id, p2.len() as int)));
            assert(parse_string(b, p2.len() as int) == Some((row.house_number@, p3.len() as int)));
            assert(parse_point(b, p3.len() as int) == Some((row.position, p4.len() as int)));
            assert(parse_u32(b, p4.len() as int) == Some((row.confidence_milli, p5.len() as int)));
            assert(parse_bool(b, p5.len() as int) == Some((row.verified, p6.len() as int)));
            assert(parse_opt_u16(b, p6.len() as int) == Some(
                (row.estimated_flats, p7.len() as int),
            ));
            assert(parse_u32(b, p7.len() as int) == Some((row.circle_radius, p8.len() as int)));
            assert(parse_opt_i64(b, p8.len() as int) == Some(
                (row.assigned_street_id, out@.len() as int),
            ));
        }
    }
}

/// Append a team row.
fn write_team_row(out: &mut Vec<u8>, row: &TeamRow)
    ensures
        old(out)@.is_prefix_of(final(out)@),
        forall|b: Seq<u8>|
            final(out)@.is_prefix_of(b) ==> #[trigger] parse_team_row(b, old(out)@.len() as int)
                == Some((*row, final(out)@.len() as int)),
{
    let ghost p0 = out@;
    write_i64(out, row.id);
    let ghost p1 = out@;
    write_i64(out, row.area_id);
    let ghost p2 = out@;
    write_u16(out, row.number);
    proof {
        lemma_prefix_trans(p1, p2, out@);
        lemma_prefix_trans(p0, p1, out@);
        assert forall|b: Seq<u8>| out@.is_prefix_of(b) implies #[trigger] parse_team_row(
            b,
            p0.len() as int,
        ) == Some((*row, out@.len() as int)) by {
            lemma_prefix_trans(p1, out@, b);
            lemma_prefix_trans(p2, out@, b);
            assert(parse_i64(b, p0.len() as int) == Some((row.id, p1.len() as int)));
            assert(parse_i64(b, p1.len() as int) == Some((row.area_id, p2.len() as int)));
            assert(parse_u16(b, p2.len() as int) == Some((row.number, out@.len() as int)));
        }
    }
}

/// Append an assignment row.
fn write_assign_row(out: &mut Vec<u8>, row: &AssignRow)
    ensures
        old(out)@.is_prefix_of(final(out)@),
        forall|b: Seq<u8>|
            final(out)@.is_prefix_of(b) ==> #[trigger] parse_assign_row(b, old(out)@.len() as int)
                == Some((*row, final(out)@.len() as int)),
{
    let ghost p0 = out@;
    write_i64(out, row.team_id);
    let ghost p1 = out@;
    write_i64(out, row.address_id);
    let ghost p2 = out@;
    write_i64(out, row.area_id);
    proof {
        lemma_prefix_trans(p1, p2, out@);
        lemma_prefix_trans(p0, p1, out@);
        assert forall|b: Seq<u8>| out@.is_prefix_of(b) implies #[trigger] parse_assign_row(
            b,
            p0.len() as int,
        ) == Some((*row, out@.len() as int)) by {
            lemma_prefix_trans(p1, out@, b);
            lemma_prefix_trans(p2, out@, b);
            assert(parse_i64(b, p0.len() as int) == Some((row.team_id, p1.len() as int)));
            assert(parse_i64(b, p1.len() as int) == Some((row.address_id, p2.len() as int)));
            assert(parse_i64(b, p2.len() as int) == Some((row.area_id, out@.len() as int)));
        }
    }
}

/// Append a raster entry.
fn write_image_entry(out: &mut Vec<u8>, row: &ImageEntry)
    ensures
        old(out)@.is_prefix_of(final(out)@),
        forall|b: Seq<u8>|
            final(out)@.is_prefix_of(b) ==> #[trigger] parse_image_entry(b, old(out)@.len() as int)
                == Some((row@, final(out)@.len() as int)),
{
    let ghost p0 = out@;
    write_string(out, &row.name);
    let ghost p1 = out@;
    write_bytes(out, &row.data);
    proof {
        lemma_prefix_trans(p0, p1, out@);
        assert forall|b: Seq<u8>| out@.is_prefix_of(b) implies #[trigger] parse_image_entry(
            b,
            p0.len() as int,
        ) == Some((row@, out@.len() as int)) by {
            lemma_prefix_trans(p1, out@, b);
            assert(parse_string(b, p0.len() as int) == Some((row.name@, p1.len() as int)));
            assert(parse_bytes(b, p1.len() as int) == Some((row.data@, out@.len() as int)));
        }
    }
}

/// Append the metadata table: count, then the rows.
#[verifier::loop_isolation(false)]
fn write_meta_table(out: &mut Vec<u8>, rows: &Vec<MetaRow>)
    ensures
        old(out)@.is_prefix_of(final(out)@),
        forall|b: Seq<u8>|
            final(out)@.is_prefix_of(b) ==> #[trigger] parse_meta_table(
                b,
                old(out)@.len() as int,
            ) == Some((rows.deep_view(), final(out)@.len() as int)),
{
    let ghost p0 = out@;
    let n = rows.len();
    write_u64(out, n as u64);
    let ghost after_count = out@;
    let ghost body_start = out@.len() as int;
    let mut i: usize = 0;
    while i < n
        invariant
            0 <= i <= n,
            old(out)@.is_prefix_of(out@),
            after_count.is_prefix_of(out@),
            forall|b: Seq<u8>|
                out@.is_prefix_of(b) ==> #[trigger] parse_meta_n(b, body_start, n as nat) == (
                match parse_meta_n(b, out@.len() as int, (n - i) as nat) {
                    Some((rest, fin)) => Some((rows.deep_view().take(i as int) + rest, fin)),
                    None => None,
                }),
        decreases n - i,
    {
        let ghost pre = out@;
        write_meta_row(out, &rows[i]);
        proof {
            lemma_prefix_trans(old(out)@, pre, out@);
            lemma_prefix_trans(after_count, pre, out@);
            assert forall|b: Seq<u8>| out@.is_prefix_of(b) implies #[trigger] parse_meta_n(
                b,
                body_start,
                n as nat,
            ) == (match parse_meta_n(b, out@.len() as int, (n - i - 1) as nat) {
                Some((rest, fin)) => Some((rows.deep_view().take(i as int + 1) + rest, fin)),
                None => None,
            }) by {
                lemma_prefix_trans(pre, out@, b);
                assert(parse_meta_row(b, pre.len() as int) == Some(
                    (rows.deep_view()[i as int], out@.len() as int),
                ));
                match parse_meta_n(b, out@.len() as int, (n - i - 1) as nat) {
                    Some((rest, fin)) => {
                        assert(parse_meta_n(b, pre.len() as int, (n - i) as nat) == Some(
                            (seq![rows.deep_view()[i as int]] + rest, fin),
                        ));
                        assert(rows.deep_view().take(i as int) + (seq![rows.deep_view()[i as int]]
                            + rest) =~= rows.deep_view().take(i as int + 1) + rest);
                    },
                    None => {
                        assert(parse_meta_n(b, pre.len() as int, (n - i) as nat) is None);
                    },
                }
            }
        }
        i += 1;
    }
    proof {
        assert forall|b: Seq<u8>| out@.is_prefix_of(b) implies #[trigger] parse_meta_table(
            b,
            p0.len() as int,
        ) == Some((rows.deep_view(), out@.len() as int)) by {
            lemma_prefix_trans(after_count, out@, b);
            assert(parse_u64(b, p0.len() as int) == Some((n as u64, body_start)));
            assert(parse_meta_n(b, out@.len() as int, 0) == Some(
                (Seq::<MetaRowV>::empty(), out@.len() as int),
            ));
            assert(rows.deep_view().take(n as int) + Seq::<MetaRowV>::empty() =~= rows.deep_view());
        }
    }
}

/// Append the area table: count, then the rows.
#[verifier::loop_isolation(false)]
fn write_areas_table(out: &mut Vec<u8>, rows: &Vec<AreaRow>)
    ensures
        old(out)@.is_prefix_of(final(out)@),
        forall|b: Seq<u8>|
            final(out)@.is_prefix_of(b) ==> #[trigger] parse_areas_table(
                b,
                old(out)@.len() as int,
            ) == Some((rows.deep_view(), final(out)@.len() as int)),
{
    let ghost p0 = out@;
    let n = rows.len();
    write_u64(out, n as u64);
    let ghost after_count = out@;
    let ghost body_start = out@.len() as int;
    let mut i: usize = 0;
    while i < n
        invariant
            0 <= i <= n,
            old(out)@.is_prefix_of(out@),
            after_count.is_prefix_of(out@),
            forall|b: Seq<u8>|
                out@.is_prefix_of(b) ==> #[trigger] parse_areas_n(b, body_start, n as nat) == (
                match parse_areas_n(b, out@.len() as int, (n - i) as nat) {
                    Some((rest, fin)) => Some((rows.deep_view().take(i as int) + rest, fin)),
                    None => None,
                }),
        decreases n - i,
    {
        let ghost pre = out@;
        write_area_row(out, &rows[i]);
        proof {
            lemma_prefix_trans(old(out)@, pre, out@);
            lemma_prefix_trans(after_count, pre, out@);
            assert forall|b: Seq<u8>| out@.is_prefix_of(b) implies #[trigger] parse_areas_n(
                b,
                body_start,
                n as nat,
            ) == (match parse_areas_n(b, out@.len() as int, (n - i - 1) as nat) {
                Some((rest, fin)) => Some((rows.deep_view().take(i as int + 1) + rest, fin)),
                None => None,
            }) by {
                lemma_prefix_trans(pre, out@, b);
                assert(parse_area_row(b, pre.len() as int) == Some(
                    (rows.deep_view()[i as int], out@.len() as int),
                ));
                match parse_areas_n(b, out@.len() as int, (n - i - 1) as nat) {
                    Some((rest, fin)) => {
                        assert(parse_areas_n(b, pre.len() as int, (n - i) as nat) == Some(
                            (seq![rows.deep_view()[i as int]] + rest, fin),
                        ));
                        assert(rows.deep_view().take(i as int) + (seq![rows.deep_view()[i as int]]
                            + rest) =~= rows.deep_view().take(i as int + 1) + rest);
                    },
                    None => {
                        assert(parse_areas_n(b, pre.len() as int, (n - i) as nat) is None);
                    },
                }
            }
        }
        i += 1;
    }
    proof {
        assert forall|b: Seq<u8>| out@.is_prefix_of(b) implies #[trigger] parse_areas_table(
            b,
            p0.len() as int,
        ) == Some((rows.deep_view(), out@.len() as int)) by {
            lemma_prefix_trans(after_count, out@, b);
            assert(parse_u64(b, p0.len() as int) == Some((n as u64, body_start)));
            assert(parse_areas_n(b, out@.len() as int, 0) == Some(
                (Seq::<AreaRowV>::empty(), out@.len() as int),
            ));
            assert(rows.deep_view().take(n as int) + Seq::<AreaRowV>::empty() =~= rows.deep_view());
        }
    }
}

/// Append the street table: count, then the rows.
#[verifier::loop_isolation(false)]
fn write_streets_table(out: &mut Vec<u8>, rows: &Vec<StreetRow>)
    ensures
        old(out)@.is_prefix_of(final(out)@),
        forall|b: Seq<u8>|
            final(out)@.is_prefix_of(b) ==> #[trigger] parse_streets_table(
                b,
                old(out)@.len() as int,
            ) == Some((rows.deep_view(), final(out)@.len() as int)),
{
    let ghost p0 = out@;
    let n = rows.len();
    write_u64(out, n as u64);
    let ghost after_count = out@;
    let ghost body_start = out@.len() as int;
    let mut i: usize = 0;
    while i < n
        invariant
            0 <= i <= n,
            old(out)@.is_prefix_of(out@),
            after_count.is_prefix_of(out@),
            forall|b: Seq<u8>|
                out@.is_prefix_of(b) ==> #[trigger] parse_streets_n(b, body_start, n as nat) == (
                match parse_streets_n(b, out@.len() as int, (n - i) as nat) {
                    Some((rest, fin)) => Some((rows.deep_view().take(i as int) + rest, fin)),
                    None => None,
                }),
        decreases n - i,
    {
        let ghost pre = out@;
        write_street_row(out, &rows[i]);
        proof {
            lemma_prefix_trans(old(out)@, pre, out@);
            lemma_prefix_trans(after_count, pre, out@);
            assert forall|b: Seq<u8>| out@.is_prefix_of(b) implies #[trigger] parse_streets_n(
                b,
                body_start,
                n as nat,
            ) == (match parse_streets_n(b, out@.len() as int, (n - i - 1) as nat) {
                Some((rest, fin)) => Some((rows.deep_view().take(i as int + 1) + rest, fin)),
                None => None,
            }) by {
                lemma_prefix_trans(pre, out@, b);
                assert(parse_street_row(b, pre.len() as int) == Some(
                    (rows.deep_view()[i as int], out@.len() as int),
                ));
                match parse_streets_n(b, out@.len() as int, (n - i - 1) as nat) {
                    Some((rest, fin)) => {
                        assert(parse_streets_n(b, pre.len() as int, (n - i) as nat) == Some(
                            (seq![rows.deep_view()[i as int]] + rest, fin),
                        ));
                        assert(rows.deep_view().take(i as int) + (seq![rows.deep_view()[i as int]]
                            + rest) =~= rows.deep_view().take(i as int + 1) + rest);
                    },
                    None => {
                        assert(parse_streets_n(b, pre.len() as int, (n - i) as nat) is None);
                    },
                }
            }
        }
        i += 1;
    }
    proof {
        assert forall|b: Seq<u8>| out@.is_prefix_of(b) implies #[trigger] parse_streets_table(
            b,
            p0.len() as int,
        ) == Some((rows.deep_view(), out@.len() as int)) by {
            lemma_prefix_trans(after_count, out@, b);
            assert(parse_u64(b, p0.len() as int) == Some((n as u64, body_start)));
            assert(parse_streets_n(b, out@.len() as int, 0) == Some(
                (Seq::<StreetRowV>::empty(), out@.len() as int),
            ));
            assert(rows.deep_view().take(n as int) + Seq::<StreetRowV>::empty() =~= rows.deep_view());
        }
    }
}

/// Append the vertex-list table: count, then the rows.
#[verifier::loop_isolation(false)]
fn write_polys_table(out: &mut Vec<u8>, rows: &Vec<PolyRow>)
    ensures
        old(out)@.is_prefix_of(final(out)@),
        forall|b: Seq<u8>|
            final(out)@.is_prefix_of(b) ==> #[trigger] parse_polys_table(
                b,
                old(out)@.len() as int,
            ) == Some((rows.deep_view(), final(out)@.len() as int)),
{
    let ghost p0 = out@;
    let n = rows.len();
    write_u64(out, n as u64);
    let ghost after_count = out@;
    let ghost body_start = out@.len() as int;
    let mut i: usize = 0;
    while i < n
        invariant
            0 <= i <= n,
            old(out)@.is_prefix_of(out@),
            after_count.is_prefix_of(out@),
            forall|b: Seq<u8>|
                out@.is_prefix_of(b) ==> #[trigger] parse_polys_n(b, body_start, n as nat) == (
                match parse_polys_n(b, out@.len() as int, (n - i) as nat) {
                    Some((rest, fin)) => Some((rows.deep_view().take(i as int) + rest, fin)),
                    None => None,
                }),
        decreases n - i,
    {
        let ghost pre = out@;
        write_poly_row(out, &rows[i]);
        proof {
            lemma_prefix_trans(old(out)@, pre, out@);
            lemma_prefix_trans(after_count, pre, out@);
            assert forall|b: Seq<u8>| out@.is_prefix_of(b) implies #[trigger] parse_polys_n(
                b,
                body_start,
                n as nat,
            ) == (match parse_polys_n(b, out@.len() as int, (n - i - 1) as nat) {
                Some((rest, fin)) => Some((rows.deep_view().take(i as int + 1) + rest, fin)),
                None => None,
            }) by {
                lemma_prefix_trans(pre, out@, b);
                assert(parse_poly_row(b, pre.len() as int) == Some(
                    (rows.deep_view()[i as int], out@.len() as int),
                ));
                match parse_polys_n(b, out@.len() as int, (n - i - 1) as nat) {
                    Some((rest, fin)) => {
                        assert(parse_polys_n(b, pre.len() as int, (n - i) as nat) == Some(
                            (seq![rows.deep_view()[i as int]] + rest, fin),
                        ));
                        assert(rows.deep_view().take(i as int) + (seq![rows.deep_view()[i as int]]
                            + rest) =~= rows.deep_view().take(i as int + 1) + rest);
                    },
                    None => {
                        assert(parse_polys_n(b, pre.len() as int, (n - i) as nat) is None);
                    },
                }
            }
        }
        i += 1;
    }
    proof {
        assert forall|b: Seq<u8>| out@.is_prefix_of(b) implies #[trigger] parse_polys_table(
            b,
            p0.len() as int,
        ) == Some((rows.deep_view(), out@.len() as int)) by {
            lemma_prefix_trans(after_count, out@, b);
            assert(parse_u64(b, p0.len() as int) == Some((n as u64, body_start)));
            assert(parse_polys_n(b, out@.len() as int, 0) == Some(
                (Seq::<PolyRowV>::empty(), out@.len() as int),
            ));
            assert(rows.deep_view().take(n as int) + Seq::<PolyRowV>::empty() =~= rows.deep_view());
        }
    }
}

/// Append the address table: count, then the rows.
#[verifier::loop_isolation(false)]
fn write_addresses_table(out: &mut Vec<u8>, rows: &Vec<Address>)
    ensures
        old(out)@.is_prefix_of(final(out)@),
        forall|b: Seq<u8>|
            final(out)@.is_prefix_of(b) ==> #[trigger] parse_addresses_table(
                b,
                old(out)@.len() as int,
            ) == Some((rows.deep_view(), final(out)@.len() as int)),
{
    let ghost p0 = out@;
    let n = rows.len();
    write_u64(out, n as u64);
    let ghost after_count = out@;
    let ghost body_start = out@.len() as int;
    let mut i: usize = 0;
    while i < n
        invariant
            0 <= i <= n,
            old(out)@.is_prefix_of(out@),
            after_count.is_prefix_of(out@),
            forall|b: Seq<u8>|
                out@.is_prefix_of(b) ==> #[trigger] parse_addresses_n(b, body_start, n as nat) == (
                match parse_addresses_n(b, out@.len() as int, (n - i) as nat) {
                    Some((rest, fin)) => Some((rows.deep_view().take(i as int) + rest, fin)),
                    None => None,
                }),
        decreases n - i,
    {
        let ghost pre = out@;
        write_address_row(out, &rows[i]);
        proof {
            lemma_prefix_trans(old(out)@, pre, out@);
            lemma_prefix_trans(after_count, pre, out@);
            assert forall|b: Seq<u8>| out@.is_prefix_of(b) implies #[trigger] parse_addresses_n(
                b,
                body_start,
                n as nat,
            ) == (match parse_addresses_n(b, out@.len() as int, (n - i - 1) as nat) {
                Some((rest, fin)) => Some((rows.deep_view().take(i as int + 1) + rest, fin)),
                None => None,
            }) by {
                lemma_prefix_trans(pre, out@, b);
                assert(parse_address_row(b, pre.len() as int) == Some(
                    (rows.deep_view()[i as int], out@.len() as int),
                ));
                match parse_addresses_n(b, out@.len() as int, (n - i - 1) as nat) {
                    Some((rest, fin)) => {
                        assert(parse_addresses_n(b, pre.len() as int, (n - i) as nat) == Some(
                            (seq![rows.deep_view()[i as int]] + rest, fin),
                        ));
                        assert(rows.deep_view().take(i as int) + (seq![rows.deep_view()[i as int]]
                            + rest) =~= rows.deep_view().take(i as int + 1) + rest);
                    },
                    None => {
                        assert(parse_addresses_n(b, pre.len() as int, (n - i) as nat) is None);
                    },
                }
            }
        }
        i += 1;
    }
    proof {
        assert forall|b: Seq<u8>| out@.is_prefix_of(b) implies #[trigger] parse_addresses_table(
            b,
            p0.len() as int,
        ) == Some((rows.deep_view(), out@.len() as int)) by {
            lemma_prefix_trans(after_count, out@, b);
            assert(parse_u64(b, p0.len() as int) == Some((n as u64, body_start)));
            assert(parse_addresses_n(b, out@.len() as int, 0) == Some(
                (Seq::<AddressV>::empty(), out@.len() as int),
            ));
            assert(rows.deep_view().take(n as int) + Seq::<AddressV>::empty() =~= rows.deep_view());
        }
    }
}

/// Append the team table: count, then the rows.
#[verifier::loop_isolation(false)]
fn write_teams_table(out: &mut Vec<u8>, rows: &Vec<TeamRow>)
    ensures
        old(out)@.is_prefix_of(final(out)@),
        forall|b: Seq<u8>|
            final(out)@.is_prefix_of(b) ==> #[trigger] parse_teams_table(
                b,
                old(out)@.len() as int,
            ) == Some((rows.deep_view(), final(out)@.len() as int)),
{
    let ghost p0 = out@;
    let n = rows.len();
    write_u64(out, n as u64);
    let ghost after_count = out@;
    let ghost body_start = out@.len() as int;
    let mut i: usize = 0;
    while i < n
        invariant
            0 <= i <= n,
            old(out)@.is_prefix_of(out@),
            after_count.is_prefix_of(out@),
            forall|b: Seq<u8>|
                out@.is_prefix_of(b) ==> #[trigger] parse_teams_n(b, body_start, n as nat) == (
                match parse_teams_n(b, out@.len() as int, (n - i) as nat) {
                    Some((rest, fin)) => Some((rows.deep_view().take(i as int) + rest, fin)),
                    None => None,
                }),
        decreases n - i,
    {
        let ghost pre = out@;
        write_team_row(out, &rows[i]);
        proof {
            lemma_prefix_trans(old(out)@, pre, out@);
            lemma_prefix_trans(after_count, pre, out@);
            assert forall|b: Seq<u8>| out@.is_prefix_of(b) implies #[trigger] parse_teams_n(
                b,
                body_start,
                n as nat,
            ) == (match parse_teams_n(b, out@.len() as int, (n - i - 1) as nat) {
                Some((rest, fin)) => Some((rows.deep_view().take(i as int + 1) + rest, fin)),
                None => None,
            }) by {
                lemma_prefix_trans(pre, out@, b);
                assert(parse_team_row(b, pre.len() as int) == Some(
                    (rows.deep_view()[i as int], out@.len() as int),
                ));
                match parse_teams_n(b, out@.len() as int, (n - i - 1) as nat) {
                    Some((rest, fin)) => {
                        assert(parse_teams_n(b, pre.len() as int, (n - i) as nat) == Some(
                            (seq![rows.deep_view()[i as int]] + rest, fin),
                        ));
                        assert(rows.deep_view().take(i as int) + (seq![rows.deep_view()[i as int]]
                            + rest) =~= rows.deep_view().take(i as int + 1) + rest);
                    },
                    None => {
                        assert(parse_teams_n(b, pre.len() as int, (n - i) as nat) is None);
                    },
                }
            }
        }
        i += 1;
    }
    proof {
        assert forall|b: Seq<u8>| out@.is_prefix_of(b) implies #[trigger] parse_teams_table(
            b,
            p0.len() as int,
        ) == Some((rows.deep_view(), out@.len() as int)) by {
            lemma_prefix_trans(after_count, out@, b);
            assert(parse_u64(b, p0.len() as int) == Some((n as u64, body_start)));
            assert(parse_teams_n(b, out@.len() as int, 0) == Some(
                (Seq::<TeamRow>::empty(), out@.len() as int),
            ));
            assert(rows.deep_view().take(n as int) + Seq::<TeamRow>::empty() =~= rows.deep_view());
        }
    }
}

/// Append the assignment table: count, then the rows.
#[verifier::loop_isolation(false)]
fn write_assigns_table(out: &mut Vec<u8>, rows: &Vec<AssignRow>)
    ensures
        old(out)@.is_prefix_of(final(out)@),
        forall|b: Seq<u8>|
            final(out)@.is_prefix_of(b) ==> #[trigger] parse_assigns_table(
                b,
                old(out)@.len() as int,
            ) == Some((rows.deep_view(), final(out)@.len() as int)),
{
    let ghost p0 = out@;
    let n = rows.len();
    write_u64(out, n as u64);
    let ghost after_count = out@;
    let ghost body_start = out@.len() as int;
    let mut i: usize = 0;
    while i < n
        invariant
            0 <= i <= n,
            old(out)@.is_prefix_of(out@),
            after_count.is_prefix_of(out@),
            forall|b: Seq<u8>|
                out@.is_prefix_of(b) ==> #[trigger] parse_assigns_n(b, body_start, n as nat) == (
                match parse_assigns_n(b, out@.len() as int, (n - i) as nat) {
                    Some((rest, fin)) => Some((rows.deep_view().take(i as int) + rest, fin)),
                    None => None,
                }),
        decreases n - i,
    {
        let ghost pre = out@;
        write_assign_row(out, &rows[i]);
        proof {
            lemma_prefix_trans(old(out)@, pre, out@);
            lemma_prefix_trans(after_count, pre, out@);
            assert forall|b: Seq<u8>| out@.is_prefix_of(b) implies #[trigger] parse_assigns_n(
                b,
                body_start,
                n as nat,
            ) == (match parse_assigns_n(b, out@.len() as int, (n - i - 1) as nat) {
                Some((rest, fin)) => Some((rows.deep_view().take(i as int + 1) + rest, fin)),
                None => None,
            }) by {
                lemma_prefix_trans(pre, out@, b);
                assert(parse_assign_row(b, pre.len() as int) == Some(
                    (rows.deep_view()[i as int], out@.len() as int),
                ));
                match parse_assigns_n(b, out@.len() as int, (n - i - 1) as nat) {
                    Some((rest, fin)) => {
                        assert(parse_assigns_n(b, pre.len() as int, (n - i) as nat) == Some(
                            (seq![rows.deep_view()[i as int]] + rest, fin),
                        ));
                        assert(rows.deep_view().take(i as int) + (seq![rows.deep_view()[i as int]]
                            + rest) =~= rows.deep_view().take(i as int + 1) + rest);
                    },
                    None => {
                        assert(parse_assigns_n(b, pre.len() as int, (n - i) as nat) is None);
                    },
                }
            }
        }
        i += 1;
    }
    proof {
        assert forall|b: Seq<u8>| out@.is_prefix_of(b) implies #[trigger] parse_assigns_table(
            b,
            p0.len() as int,
        ) == Some((rows.deep_view(), out@.len() as int)) by {
            lemma_prefix_trans(after_count, out@, b);
            assert(parse_u64(b, p0.len() as int) == Some((n as u64, body_start)));
            assert(parse_assigns_n(b, out@.len() as int, 0) == Some(
                (Seq::<AssignRow>::empty(), out@.len() as int),
            ));
            assert(rows.deep_view().take(n as int) + Seq::<AssignRow>::empty() =~= rows.deep_view());
        }
    }
}

/// Append the raster table: count, then the rows.
#[verifier::loop_isolation(false)]
fn write_images_table(out: &mut Vec<u8>, rows: &Vec<ImageEntry>)
    ensures
        old(out)@.is_prefix_of(final(out)@),
        forall|b: Seq<u8>|
            final(out)@.is_prefix_of(b) ==> #[trigger] parse_images_table(
                b,
                old(out)@.len() as int,
            ) == Some((rows.deep_view(), final(out)@.len() as int)),
{
    let ghost p0 = out@;
    let n = rows.len();
    write_u64(out, n as u64);
    let ghost after_count = out@;
    let ghost body_start = out@.len() as int;
    let mut i: usize = 0;
    while i < n
        invariant
            0 <= i <= n,
            old(out)@.is_prefix_of(out@),
            after_count.is_prefix_of(out@),
            forall|b: Seq<u8>|
                out@.is_prefix_of(b) ==> #[trigger] parse_images_n(b, body_start, n as nat) == (
                match parse_images_n(b, out@.len() as int, (n - i) as nat) {
                    Some((rest, fin)) => Some((rows.deep_view().take(i as int) + rest, fin)),
                    None => None,
                }),
        decreases n - i,
    {
        let ghost pre = out@;
        write_image_entry(out, &rows[i]);
        proof {
            lemma_prefix_trans(old(out)@, pre, out@);
            lemma_prefix_trans(after_count, pre, out@);
            assert forall|b: Seq<u8>| out@.is_prefix_of(b) implies #[trigger] parse_images_n(
                b,
                body_start,
                n as nat,
            ) == (match parse_images_n(b, out@.len() as int, (n - i - 1) as nat) {
                Some((rest, fin)) => Some((rows.deep_view().take(i as int + 1) + rest, fin)),
                None => None,
            }) by {
                lemma_prefix_trans(pre, out@, b);
                assert(parse_image_entry(b, pre.len() as int) == Some(
                    (rows.deep_view()[i as int], out@.len() as int),
                ));
                match parse_images_n(b, out@.len() as int, (n - i - 1) as nat) {
                    Some((rest, fin)) => {
                        assert(parse_images_n(b, pre.len() as int, (n - i) as nat) == Some(
                            (seq![rows.deep_view()[i as int]] + rest, fin),
                        ));
                        assert(rows.deep_view().take(i as int) + (seq![rows.deep_view()[i as int]]
                            + rest) =~= rows.deep_view().take(i as int + 1) + rest);
                    },
                    None => {
                        assert(parse_images_n(b, pre.len() as int, (n - i) as nat) is None);
                    },
                }
            }
        }
        i += 1;
    }
    proof {
        assert forall|b: Seq<u8>| out@.is_prefix_of(b) implies #[trigger] parse_images_table(
            b,
            p0.len() as int,
        ) == Some((rows.deep_view(), out@.len() as int)) by {
            lemma_prefix_trans(after_count, out@, b);
            assert(parse_u64(b, p0.len() as int) == Some((n as u64, body_start)));
            assert(parse_images_n(b, out@.len() as int, 0) == Some(
                (Seq::<ImageEntryV>::empty(), out@.len() as int),
            ));
            assert(rows.deep_view().take(n as int) + Seq::<ImageEntryV>::empty() =~= rows.deep_view());
        }
    }
}

/// Render a whole container: the presence bytes, the store's tables and
/// the raster entries.  The result reads back, through the verified
/// parser, as exactly the content packed.
#[verifier::loop_isolation(false)]
pub fn write_container(store: &WorkingStore, images: &Vec<ImageEntry>) -> (r: Vec<u8>)
    requires
        store@.wf(),
    ensures
        spec_parse_container(r@) == Ok::<ContentV, StoreError>(
            ContentV { store: store@, images: images.deep_view() },
        ),
{
    let mut out: Vec<u8> = Vec::new();
    write_u8(&mut out, 1);
    let ghost q1 = out@;
    write_u8(&mut out, 1);
    let ghost q2 = out@;
    write_meta_table(&mut out, store.meta_rows());
    let ghost q3 = out@;
    write_areas_table(&mut out, store.area_rows());
    let ghost q4 = out@;
    write_streets_table(&mut out, store.street_rows());
    let ghost q5 = out@;
    write_polys_table(&mut out, store.street_polyline_rows());
    let ghost q6 = out@;
    write_addresses_table(&mut out, store.address_rows());
    let ghost q7 = out@;
    write_teams_table(&mut out, store.team_rows());
    let ghost q8 = out@;
    write_assigns_table(&mut out, store.assignment_rows());
    let ghost q9 = out@;
    write_polys_table(&mut out, store.team_bound_rows());
    let ghost q10 = out@;
    write_images_table(&mut out, images);
    proof {
        let raw = out@;
        assert(raw.is_prefix_of(raw)) by {
            assert(raw =~= raw.subrange(0, raw.len() as int));
        }
        lemma_prefix_trans(q10, raw, raw);
        lemma_prefix_trans(q9, q10, raw);
        lemma_prefix_trans(q8, q9, raw);
        lemma_prefix_trans(q7, q8, raw);
        lemma_prefix_trans(q6, q7, raw);
        lemma_prefix_trans(q5, q6, raw);
        lemma_prefix_trans(q4, q5, raw);
        lemma_prefix_trans(q3, q4, raw);
        lemma_prefix_trans(q2, q3, raw);
        lemma_prefix_trans(q1, q2, raw);
        assert(parse_u8(raw, 0) == Some((1u8, q1.len() as int)));
        assert(parse_u8(raw, q1.len() as int) == Some((1u8, q2.len() as int)));
        assert(parse_meta_table(raw, q2.len() as int) == Some(
            (store@.meta, q3.len() as int),
        ));
        assert(parse_areas_table(raw, q3.len() as int) == Some(
            (store@.areas, q4.len() as int),
        ));
        assert(parse_streets_table(raw, q4.len() as int) == Some(
            (store@.streets, q5.len() as int),
        ));
        assert(parse_polys_table(raw, q5.len() as int) == Some(
            (store@.street_polylines, q6.len() as int),
        ));
        assert(parse_addresses_table(raw, q6.len() as int) == Some(
            (store@.addresses, q7.len() as int),
        ));
        assert(parse_teams_table(raw, q7.len() as int) == Some(
            (store@.teams, q8.len() as int),
        ));
        assert(parse_assigns_table(raw, q8.len() as int) == Some(
            (store@.assignments, q9.len() as int),
        ));
        assert(parse_polys_table(raw, q9.len() as int) == Some(
            (store@.team_bounds, q10.len() as int),
        ));
        assert(parse_images_table(raw, q10.len() as int) == Some(
            (images.deep_view(), raw.len() as int),
        ));
        assert(parse_store_v(raw, q2.len() as int) matches Some((sv, p)) && sv =~~= store@ && p
            == q10.len() as int);
        assert(parse_store_v(raw, q2.len() as int) == Some((store@, q10.len() as int)));
    }
    out
}

} // verus!
