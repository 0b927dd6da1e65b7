use vstd::prelude::*;
use vstd::string::StringExecFns;

verus! {

/// Why a run of the splitter failed.
///
/// Every failure aborts the whole run: nothing is retried and no error is
/// downgraded. Reading and writing files is the caller's business, so the
/// library only ever reports the two failures it can see itself: a route
/// structure that lacks the one track and segment it works on, and a
/// distance computation that the geodesic formula cannot carry out.
#[derive(Debug)]
pub enum SplitError {
    /// The route structure has no track at index 0.
    MissingTrack,
    /// Track 0 of the route structure has no segment at index 0.
    MissingSegment,
    /// The distance between two waypoints could not be computed; the
    /// payload is the reason the geodesic formula gave.
    Geometry(String),
}

impl SplitError {
    /// A human-readable description of the failure.
    pub fn message(&self) -> (r: String)
        ensures
            self is MissingTrack ==> r@ == "gpx file missing track 0"@,
            self is MissingSegment ==> r@ == "gpx track 0 missing segment 0"@,
            (self matches SplitError::Geometry(m)
                ==> r@ == "distance computation failed: "@ + m@),
    {
        match self {
            SplitError::MissingTrack => "gpx file missing track 0".to_owned(),
            SplitError::MissingSegment => "gpx track 0 missing segment 0".to_owned(),
            SplitError::Geometry(m) => {
                let mut r = "distance computation failed: ".to_owned();
                r.append(m.as_str());
                r
            },
        }
    }
}

} // verus!
