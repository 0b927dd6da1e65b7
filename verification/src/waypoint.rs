use vstd::prelude::*;

verus! {

/// One recorded point of a route.
///
/// Coordinates are kept in millionths of a degree, so the whole surface of
/// the earth fits comfortably in an `i32` per axis. A waypoint usually
/// carries auxiliary data as well (elevation, time, a name, ...); the
/// splitter never reads any of it, so it travels as the opaque `aux` tag,
/// which a caller may use to find the full record again.
#[derive(Clone, Copy, PartialEq, Eq, Structural, Debug)]
pub struct Waypoint {
    /// Latitude in millionths of a degree, negative south of the equator.
    pub lat_udeg: i32,
    /// Longitude in millionths of a degree, negative west of Greenwich.
    pub lon_udeg: i32,
    /// Opaque tag for whatever data rides along with the point.
    pub aux: u64,
}

} // verus!
