use vstd::prelude::*;

use crate::error::SplitError;
use crate::waypoint::Waypoint;

verus! {

/// One segment of a track: an ordered run of waypoints.
#[derive(Debug)]
pub struct TrackSegment {
    /// The waypoints of the segment, in route order.
    pub points: Vec<Waypoint>,
}

/// One track of a route file.
#[derive(Debug)]
pub struct Track {
    /// The human-readable name of the track, if it has one.
    pub name: Option<String>,
    /// The segments of the track, in file order.
    pub segments: Vec<TrackSegment>,
}

/// The route structure as the file-format collaborator hands it over: a
/// list of tracks, each holding segments of waypoints. The splitter works
/// on exactly one track holding exactly one segment — track 0, segment 0 —
/// and fails rather than guesses when either is missing.
#[derive(Debug)]
pub struct Route {
    /// The tracks of the file, in file order.
    pub tracks: Vec<Track>,
}

/// The one track the splitter works on, or the structure error naming what
/// is missing.
pub fn get_track(route: &Route) -> (r: Result<&Track, SplitError>)
    ensures
        r is Ok <==> route.tracks@.len() > 0,
        (r matches Ok(t) ==> *t == route.tracks@[0]),
        (r matches Err(e) ==> e is MissingTrack),
{
    if route.tracks.len() > 0 {
        Ok(&route.tracks[0])
    } else {
        Err(SplitError::MissingTrack)
    }
}

/// The one segment the splitter works on, or the structure error naming
/// what is missing: the track itself, or its first segment.
pub fn get_segment(route: &Route) -> (r: Result<&TrackSegment, SplitError>)
    ensures
        r is Ok <==> route.tracks@.len() > 0 && route.tracks@[0].segments@.len() > 0,
        (r matches Ok(s) ==> *s == route.tracks@[0].segments@[0]),
        (r matches Err(e) ==> (if route.tracks@.len() == 0 {
            e is MissingTrack
        } else {
            e is MissingSegment
        })),
{
    let track = match get_track(route) {
        Ok(t) => t,
        Err(e) => {
            return Err(e);
        },
    };
    if track.segments.len() > 0 {
        Ok(&track.segments[0])
    } else {
        Err(SplitError::MissingSegment)
    }
}

/// Put one produced chunk back into the route structure so that the caller
/// can serialize it: the lone track gets the output file's name, its lone
/// segment gets the chunk's waypoints, and everything else in the structure
/// stays as it was. Fails, leaving the structure untouched, when track 0 or
/// its segment 0 is missing.
pub fn apply_chunk(route: &mut Route, name: String, points: Vec<Waypoint>) -> (r: Result<
    (),
    SplitError,
>)
    ensures
        r is Ok <==> old(route).tracks@.len() > 0 && old(route).tracks@[0].segments@.len() > 0,
        (r is Ok ==> {
            let pre = *old(route);
            let post = *final(route);
            &&& post.tracks@.len() == pre.tracks@.len()
            &&& post.tracks@[0].name == Some(name)
            &&& post.tracks@[0].segments@.len() == pre.tracks@[0].segments@.len()
            &&& post.tracks@[0].segments@[0].points == points
            &&& (forall|i: int|
                1 <= i < pre.tracks@.len() ==> post.tracks@[i] == #[trigger] pre.tracks@[i])
            &&& (forall|i: int|
                1 <= i < pre.tracks@[0].segments@.len() ==> post.tracks@[0].segments@[i]
                    == #[trigger] pre.tracks@[0].segments@[i])
        }),
        (r matches Err(e) ==> {
            &&& *final(route) == *old(route)
            &&& (if old(route).tracks@.len() == 0 {
                e is MissingTrack
            } else {
                e is MissingSegment
            })
        }),
{
    if route.tracks.len() == 0 {
        return Err(SplitError::MissingTrack);
    }
    if route.tracks[0].segments.len() == 0 {
        return Err(SplitError::MissingSegment);
    }
    let mut track = route.tracks.remove(0);
    let mut segment = track.segments.remove(0);
    track.name = Some(name);
    segment.points = points;
    track.segments.insert(0, segment);
    route.tracks.insert(0, track);
    Ok(())
}

} // verus!
