//! The text form of a list of shadings: shadings joined by `+`, each a
//! method name, a colour in hexadecimal and the method's angles, joined by
//! commas.

use vstd::prelude::*;
use crate::text::{hex_value, is_hex_u32, parse_hex, split, split_at, unsigned_body, views};

verus! {

/// A shading list could not be read.
#[derive(Clone, Copy, Debug, PartialEq, Eq, Structural)]
pub struct ParseShadingError();

impl ParseShadingError {
    /// What the error says.
    pub fn message(&self) -> (r: &'static str)
        ensures
            r@ == "Error parsing shading"@,
    {
        "Error parsing shading"
    }
}

/// How a shading lights the terrain.
#[derive(Clone, Copy, Debug, PartialEq, Eq, Structural)]
pub enum ShadingKind {
    /// By aspect and slope, lit from an azimuth.
    Igor,
    /// By the angle to a light at an azimuth and an altitude.
    Oblique,
    /// By slope alone.
    IgorSlope,
    /// By slope alone, lit from an altitude.
    ObliqueSlope,
}

/// One shading as it was written: its method, its colour, and the method's
/// angles in degrees as text, still to be read as numbers.
pub struct ShadingSpec {
    pub kind: ShadingKind,
    pub color: u32,
    pub angles: Vec<String>,
}

/// The method a name stands for.
pub open spec fn kind_of(name: Seq<char>) -> Option<ShadingKind> {
    if name == "igor"@ {
        Some(ShadingKind::Igor)
    } else if name == "oblique"@ {
        Some(ShadingKind::Oblique)
    } else if name == "oblique-slope"@ {
        Some(ShadingKind::ObliqueSlope)
    } else if name == "igor-slope"@ {
        Some(ShadingKind::IgorSlope)
    } else {
        None
    }
}

/// How many angles a method takes: an azimuth, an azimuth and an altitude,
/// none, or an altitude.
pub open spec fn angle_count(kind: ShadingKind) -> nat {
    match kind {
        ShadingKind::Igor => 1,
        ShadingKind::Oblique => 2,
        ShadingKind::IgorSlope => 0,
        ShadingKind::ObliqueSlope => 1,
    }
}

/// The text is one shading: a known method name, a colour, and as many
/// angles as the method takes.
pub open spec fn is_shading(item: Seq<char>) -> bool {
    let params = split(item, ',');
    &&& params.len() >= 2
    &&& kind_of(params[0]) is Some
    &&& params.len() == 2 + angle_count(kind_of(params[0]).unwrap())
    &&& is_hex_u32(params[1])
}

/// `spec` is the shading that the text says.
pub open spec fn says(item: Seq<char>, spec: ShadingSpec) -> bool {
    let params = split(item, ',');
    &&& is_shading(item)
    &&& spec.kind == kind_of(params[0]).unwrap()
    &&& spec.color == hex_value(unsigned_body(params[1]))
    &&& views(spec.angles@) == params.skip(2)
}

/// The method a name stands for.
fn kind_named(name: &String) -> (r: Option<ShadingKind>)
    ensures
        r == kind_of(name@),
{
    if *name == "igor".to_owned() {
        Some(ShadingKind::Igor)
    } else if *name == "oblique".to_owned() {
        Some(ShadingKind::Oblique)
    } else if *name == "oblique-slope".to_owned() {
        Some(ShadingKind::ObliqueSlope)
    } else if *name == "igor-slope".to_owned() {
        Some(ShadingKind::IgorSlope)
    } else {
        None
    }
}

/// How many angles a method takes.
fn angles_of(kind: ShadingKind) -> (r: usize)
    ensures
        r == angle_count(kind),
{
    match kind {
        ShadingKind::Igor => 1,
        ShadingKind::Oblique => 2,
        ShadingKind::IgorSlope => 0,
        ShadingKind::ObliqueSlope => 1,
    }
}

/// Reads one shading: `name,colour` followed by the method's angles.
pub fn parse_shading(item: &str) -> (r: Option<ShadingSpec>)
    ensures
        r is Some <==> is_shading(item@),
        r matches Some(spec) ==> says(item@, spec),
{
    let mut params = split_at(item, ',');
    let ghost all = params@;
    proof {
        assert(views(all).len() == all.len());
    }
    if params.len() < 2 {
        return None;
    }
    assert(views(all)[0] == all[0]@);
    assert(views(all)[1] == all[1]@);
    let kind = match kind_named(&params[0]) {
        Some(kind) => kind,
        None => {
            return None;
        },
    };
    if params.len() != 2 + angles_of(kind) {
        return None;
    }
    let color = match parse_hex(params[1].as_str()) {
        Ok(color) => color,
        Err(_) => {
            return None;
        },
    };
    let mut angles: Vec<String> = Vec::new();
    while params.len() > 2
        invariant
            2 <= params@.len() <= all.len(),
            params@.len() + angles@.len() == all.len(),
            forall|i: int| 0 <= i < params@.len() ==> params@[i] == all[i],
            forall|i: int|
                0 <= i < angles@.len() ==> #[trigger] angles@[i] == all[all.len() - 1 - i],
        decreases params@.len(),
    {
        match params.pop() {
            Some(angle) => {
                angles.push(angle);
            },
            None => {},
        }
    }
    let mut in_order: Vec<String> = Vec::new();
    while angles.len() > 0
        invariant
            angles@.len() + in_order@.len() == all.len() - 2,
            forall|i: int|
                0 <= i < angles@.len() ==> #[trigger] angles@[i] == all[all.len() - 1 - i],
            forall|i: int| 0 <= i < in_order@.len() ==> #[trigger] in_order@[i] == all[2 + i],
        decreases angles@.len(),
    {
        match angles.pop() {
            Some(angle) => {
                in_order.push(angle);
            },
            None => {},
        }
    }
    proof {
        assert(views(in_order@) =~= split(item@, ',').skip(2)) by {
            assert forall|i: int| 0 <= i < in_order@.len() implies views(in_order@)[i] == split(
                item@,
                ',',
            ).skip(2)[i] by {
                assert(views(all)[2 + i] == all[2 + i]@);
            }
        }
    }
    Some(ShadingSpec { kind, color, angles: in_order })
}

/// Every part of the text between `+` signs is a shading.
pub open spec fn are_shadings(s: Seq<char>) -> bool {
    forall|i: int| 0 <= i < split(s, '+').len() ==> is_shading(#[trigger] split(s, '+')[i])
}

/// Reads a list of shadings joined by `+`. Every one of them must be a
/// shading; they come out in the order they are written.
pub fn parse_shadings(s: &str) -> (r: Result<Vec<ShadingSpec>, ParseShadingError>)
    ensures
        r is Ok <==> are_shadings(s@),
        r matches Ok(list) ==> list@.len() == split(s@, '+').len() && forall|i: int|
            0 <= i < list@.len() ==> says(split(s@, '+')[i], #[trigger] list@[i]),
{
    let items = split_at(s, '+');
    let ghost parts = split(s@, '+');
    proof {
        assert(views(items@).len() == items@.len());
    }
    let mut out: Vec<ShadingSpec> = Vec::new();
    let mut i: usize = 0;
    while i < items.len()
        invariant
            i <= items.len(),
            parts == split(s@, '+'),
            views(items@) == parts,
            out@.len() == i,
            forall|k: int| 0 <= k < i ==> is_shading(#[trigger] parts[k]),
            forall|k: int| 0 <= k < i ==> says(parts[k], #[trigger] out@[k]),
        decreases items.len() - i,
    {
        assert(views(items@)[i as int] == items@[i as int]@);
        match parse_shading(items[i].as_str()) {
            Some(spec) => {
                out.push(spec);
            },
            None => {
                assert(!is_shading(parts[i as int]));
                return Err(ParseShadingError());
            },
        }
        i = i + 1;
    }
    Ok(out)
}

} // verus!
