//! Storage arcs on the ring of DHT locations.

use vstd::prelude::*;

verus! {

/// A stretch of the location ring. Bounds are inclusive, and an arc whose
/// start lies behind its end wraps around the top of the ring.
#[derive(Clone, Copy, Debug, PartialEq, Eq, Structural)]
pub enum DhtArc {
    /// No locations at all.
    Empty,
    /// The locations from the first bound up to the second.
    Arc(u32, u32),
}

/// Whether a location lies in an arc.
pub open spec fn arc_has(arc: DhtArc, loc: int) -> bool {
    match arc {
        DhtArc::Empty => false,
        DhtArc::Arc(start, end) => if start <= end {
            start <= loc <= end
        } else {
            loc >= start || loc <= end
        },
    }
}

/// The arc that holds every location.
pub open spec fn full_arc() -> DhtArc {
    DhtArc::Arc(0, u32::MAX)
}

/// Calls `kitsune2_api::DhtArc::contains`, which reports whether the distance
/// from a location to the arc is zero: never for the empty arc, between the
/// bounds for an arc that does not wrap, and from the start upwards or up to
/// the end for one that does.
#[verifier::external_body]
fn api_arc_contains(arc: DhtArc, loc: u32) -> (inside: bool)
    ensures
        inside == arc_has(arc, loc as int),
{
    let arc = match arc {
        DhtArc::Empty => kitsune2_api::DhtArc::Empty,
        DhtArc::Arc(start, end) => kitsune2_api::DhtArc::Arc(start, end),
    };
    arc.contains(loc)
}

impl DhtArc {
    /// The arc that holds every location.
    pub fn full() -> (arc: DhtArc)
        ensures
            arc == full_arc(),
    {
        DhtArc::Arc(0, u32::MAX)
    }

    /// Whether the arc holds a location.
    pub fn contains(&self, loc: u32) -> (inside: bool)
        ensures
            inside == arc_has(*self, loc as int),
    {
        api_arc_contains(*self, loc)
    }
}

/// The full arc holds every location.
pub proof fn law_full_arc_has_everything(loc: u32)
    ensures
        arc_has(full_arc(), loc as int),
{
}

} // verus!
