use vstd::prelude::*;

use crate::error::SplitError;
use crate::waypoint::Waypoint;

verus! {

/// The surface distance in whole millimeters between two points given in
/// millionths of a degree, as geoutils computes it with Vincenty's inverse
/// formula on the WGS-84 ellipsoid; `None` where the formula fails to
/// converge. The formula is deterministic, so the value depends on the two
/// coordinate pairs alone.
pub uninterp spec fn vincenty_mm(lat_a: int, lon_a: int, lat_b: int, lon_b: int) -> Option<u64>;

/// The distance computation succeeds on this pair of waypoints.
pub open spec fn pair_ok(a: Waypoint, b: Waypoint) -> bool {
    vincenty_mm(a.lat_udeg as int, a.lon_udeg as int, b.lat_udeg as int, b.lon_udeg as int)
        is Some
}

/// The measured distance between two waypoints, in millimeters.
pub open spec fn pair_mm(a: Waypoint, b: Waypoint) -> int {
    vincenty_mm(
        a.lat_udeg as int,
        a.lon_udeg as int,
        b.lat_udeg as int,
        b.lon_udeg as int,
    )->Some_0 as int
}

/// Every step between neighbouring waypoints of the sequence has a distance.
pub open spec fn path_ok(s: Seq<Waypoint>) -> bool {
    forall|i: int| 0 <= i && i + 1 < s.len() ==> #[trigger] pair_ok(s[i], s[i + 1])
}

/// The accumulated path length of the sequence, in millimeters: the sum of
/// the distances between each waypoint and the next.
pub open spec fn path_mm(s: Seq<Waypoint>) -> int
    decreases s.len(),
{
    if s.len() <= 1 {
        0
    } else {
        path_mm(s.drop_last()) + pair_mm(s[s.len() - 2], s[s.len() - 1])
    }
}

/// Relies on geoutils::Location::distance_to, which runs Vincenty's inverse
/// formula on the WGS-84 ellipsoid and returns Err exactly when the formula
/// fails to converge within its iteration bound. Coordinates are handed over
/// in millionths of a degree and the result comes back in whole millimeters;
/// a unit Location carries the two scale factors into the coordinate type.
#[verifier::external_body]
fn vincenty_call(a: &Waypoint, b: &Waypoint) -> (r: Result<u64, String>)
    ensures
        (r matches Ok(d) ==> vincenty_mm(
            a.lat_udeg as int,
            a.lon_udeg as int,
            b.lat_udeg as int,
            b.lon_udeg as int,
        ) == Some(d)),
        (r is Err ==> vincenty_mm(
            a.lat_udeg as int,
            a.lon_udeg as int,
            b.lat_udeg as int,
            b.lon_udeg as int,
        ) is None),
{
    let unit = geoutils::Location::new(1_000_000_i32, 1_000_i32);
    let (per_degree, per_meter) = (unit.latitude(), unit.longitude());
    let ra = geoutils::Location::new(a.lat_udeg, a.lon_udeg);
    let rb = geoutils::Location::new(b.lat_udeg, b.lon_udeg);
    let la = geoutils::Location::new(ra.latitude() / per_degree, ra.longitude() / per_degree);
    let lb = geoutils::Location::new(rb.latitude() / per_degree, rb.longitude() / per_degree);
    let d = la.distance_to(&lb)?;
    Ok((d.meters() * per_meter) as u64)
}

/// The surface distance between two waypoints, in whole millimeters, or the
/// geometry error when the geodesic formula cannot produce one.
pub fn distance(a: &Waypoint, b: &Waypoint) -> (r: Result<u64, SplitError>)
    ensures
        r is Ok <==> pair_ok(*a, *b),
        (r matches Ok(d) ==> d == pair_mm(*a, *b)),
        (r matches Err(e) ==> e is Geometry),
{
    match vincenty_call(a, b) {
        Ok(d) => Ok(d),
        Err(m) => Err(SplitError::Geometry(m)),
    }
}

} // verus!
