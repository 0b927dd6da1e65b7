use vstd::prelude::*;

use crate::distance::{distance, pair_mm, pair_ok, path_mm, path_ok};
use crate::error::SplitError;
use crate::waypoint::Waypoint;

verus! {

/// The sequence a single chunk is drawn from: the boundary waypoint carried
/// over from the previous chunk, if any, followed by the waypoints not yet
/// consumed. Every chunk is a prefix of this sequence.
pub open spec fn with_carry(carry: Option<Waypoint>, rest: Seq<Waypoint>) -> Seq<Waypoint> {
    match carry {
        Option::Some(c) => seq![c] + rest,
        Option::None => rest,
    }
}

/// How many waypoints a chunk holds before any distance is accumulated: the
/// first remaining waypoint, preceded by the carried boundary waypoint when
/// there is one.
pub open spec fn initial_len(carry: Option<Waypoint>) -> int {
    match carry {
        Option::Some(_) => 2,
        Option::None => 1,
    }
}

/// Where the chunk drawn from `e` closes, scanning prefixes of `e` from
/// length `k` upward: the first length whose accumulated path length
/// strictly exceeds the budget, or all of `e` when no prefix exceeds it.
pub open spec fn cut(e: Seq<Waypoint>, k: int, budget_mm: int) -> int
    decreases e.len() - k,
{
    if k >= e.len() {
        e.len() as int
    } else if path_mm(e.take(k)) > budget_mm {
        k
    } else {
        cut(e, k + 1, budget_mm)
    }
}

/// Every chunk the splitter emits, in order, given the carried boundary
/// waypoint and the remaining input. Each chunk is a prefix of
/// `with_carry(carry, rest)`; the waypoints it consumes are gone from the
/// input of the next one, whose carry is this chunk's last waypoint.
pub open spec fn spec_chunks(carry: Option<Waypoint>, rest: Seq<Waypoint>, budget_mm: int) -> Seq<
    Seq<Waypoint>,
>
    decreases rest.len(),
    via spec_chunks_decreases
{
    if rest.len() == 0 {
        seq![]
    } else {
        let e = with_carry(carry, rest);
        let j = cut(e, initial_len(carry), budget_mm);
        let consumed = j - initial_len(carry) + 1;
        seq![e.take(j)] + spec_chunks(Option::Some(e[j - 1]), rest.skip(consumed), budget_mm)
    }
}

#[via_fn]
proof fn spec_chunks_decreases(carry: Option<Waypoint>, rest: Seq<Waypoint>, budget_mm: int) {
    if rest.len() > 0 {
        let e = with_carry(carry, rest);
        lemma_cut_properties(e, initial_len(carry), budget_mm);
    }
}

/// All emitted waypoints in their original order: the first chunk whole,
/// every later chunk with its borrowed boundary waypoint dropped.
pub open spec fn glue(chunks: Seq<Seq<Waypoint>>) -> Seq<Waypoint> {
    if chunks.len() == 0 {
        Seq::empty()
    } else {
        chunks[0] + glue_tail(chunks.skip(1))
    }
}

/// Concatenation of chunks, each one's first (borrowed) waypoint dropped.
pub open spec fn glue_tail(chunks: Seq<Seq<Waypoint>>) -> Seq<Waypoint>
    decreases chunks.len(),
{
    if chunks.len() == 0 {
        Seq::empty()
    } else {
        chunks[0].skip(1) + glue_tail(chunks.skip(1))
    }
}

/// Where the scan for a chunk's end comes out: never before `k`, never past
/// the end of `e`; a close strictly inside `e` means the budget was
/// exceeded, and no prefix shorter than the close point exceeds it.
proof fn lemma_cut_properties(e: Seq<Waypoint>, k: int, budget_mm: int)
    requires
        0 <= k <= e.len(),
    ensures
        k <= cut(e, k, budget_mm) <= e.len(),
        cut(e, k, budget_mm) < e.len() ==> path_mm(e.take(cut(e, k, budget_mm))) > budget_mm,
        forall|m: int|
            k <= m < cut(e, k, budget_mm) ==> path_mm(#[trigger] e.take(m)) <= budget_mm,
    decreases e.len() - k,
{
    if k < e.len() && !(path_mm(e.take(k)) > budget_mm) {
        lemma_cut_properties(e, k + 1, budget_mm);
    }
}

/// One accumulation step: extending a proper prefix of `e` by one waypoint
/// adds the distance of the one new pair.
proof fn lemma_path_step(e: Seq<Waypoint>, k: int)
    requires
        1 <= k < e.len(),
    ensures
        path_mm(e.take(k + 1)) == path_mm(e.take(k)) + pair_mm(e[k - 1], e[k]),
{
    assert(e.take(k + 1).drop_last() =~= e.take(k));
}

/// Pull-based generator of route chunks, the single-state machine the whole
/// splitter amounts to: its one piece of carried state is the last waypoint
/// of the previously produced chunk, or none before the first pull.
pub struct LimitDistance {
    /// The full input sequence of waypoints.
    pub waypoints: Vec<Waypoint>,
    /// How many input waypoints have been consumed so far.
    pub pos: usize,
    /// The per-chunk distance budget, in millimeters. A chunk closes as soon
    /// as its accumulated path length strictly exceeds this; zero or a
    /// negative value forces a boundary at every opportunity.
    pub budget_mm: i64,
    /// The last waypoint of the previously produced chunk, which the next
    /// chunk opens with so that the route loses no leg at the boundary.
    pub prev_last: Option<Waypoint>,
}

impl LimitDistance {
    /// The cursor never points past the end of the input.
    pub open spec fn wf(self) -> bool {
        self.pos <= self.waypoints@.len()
    }

    /// The waypoints not yet consumed.
    pub open spec fn remaining(self) -> Seq<Waypoint> {
        self.waypoints@.skip(self.pos as int)
    }

    /// What one pull of the generator does. With `e` the carried boundary
    /// waypoint followed by the remaining input, and `j` the close point of
    /// the next chunk: nothing happens on exhausted input; otherwise the
    /// chunk `e.take(j)` is produced and its last waypoint carried over,
    /// unless a distance inside the chunk cannot be computed, in which case
    /// the geometry error comes back and the generator is left exhausted.
    pub open spec fn next_step(
        pre: LimitDistance,
        post: LimitDistance,
        r: Option<Result<Vec<Waypoint>, SplitError>>,
    ) -> bool {
        let rest = pre.remaining();
        let e = with_carry(pre.prev_last, rest);
        let j = cut(e, initial_len(pre.prev_last), pre.budget_mm as int);
        &&& post.wf()
        &&& post.waypoints@ == pre.waypoints@
        &&& post.budget_mm == pre.budget_mm
        &&& (rest.len() == 0 ==> r is None && post == pre)
        &&& (rest.len() > 0 ==> (if path_ok(e.take(j)) {
            &&& r matches Some(Ok(chunk)) && chunk@ == e.take(j)
            &&& post.pos == pre.pos + j - initial_len(pre.prev_last) + 1
            &&& post.prev_last == Some(e[j - 1])
        } else {
            &&& r matches Some(Err(err)) && err is Geometry
            &&& post.pos == post.waypoints@.len()
            &&& post.prev_last is None
        }))
    }

    /// A fresh generator over the whole input, with nothing carried over.
    pub fn new(waypoints: Vec<Waypoint>, budget_mm: i64) -> (r: LimitDistance)
        ensures
            r.waypoints@ == waypoints@,
            r.pos == 0,
            r.budget_mm == budget_mm,
            r.prev_last is None,
            r.wf(),
    {
        LimitDistance { waypoints, pos: 0, budget_mm, prev_last: Option::None }
    }

    /// Produce the next chunk: `None` once the input is exhausted, otherwise
    /// the chunk, or the geometry error that interrupted it.
    pub fn next(&mut self) -> (r: Option<Result<Vec<Waypoint>, SplitError>>)
        requires
            old(self).wf(),
        ensures
            Self::next_step(*old(self), *final(self), r),
    {
        let ghost pre = *self;
        let ghost rest = pre.remaining();
        let ghost e = with_carry(pre.prev_last, rest);
        let ghost k0 = initial_len(pre.prev_last);
        let ghost budget = pre.budget_mm as int;
        let ghost j = cut(e, k0, budget);

        if self.pos == self.waypoints.len() {
            return Option::None;
        }
        proof {
            lemma_cut_properties(e, k0, budget);
        }

        let first = self.waypoints[self.pos];
        self.pos = self.pos + 1;
        let mut chunk: Vec<Waypoint> = Vec::new();
        let mut acc: u64 = 0;
        let mut over: bool = false;
        match self.prev_last {
            Option::Some(c) => {
                match distance(&c, &first) {
                    Ok(d) => {
                        chunk.push(c);
                        chunk.push(first);
                        acc = d;
                        proof {
                            assert(chunk@ =~= e.take(2));
                            assert(path_mm(e.take(1)) == 0);
                            lemma_path_step(e, 1);
                        }
                    },
                    Err(err) => {
                        self.pos = self.waypoints.len();
                        self.prev_last = Option::None;
                        proof {
                            assert(!path_ok(e.take(j))) by {
                                if path_ok(e.take(j)) {
                                    assert(pair_ok(e.take(j)[0], e.take(j)[1int]));
                                }
                            }
                        }
                        return Option::Some(Err(err));
                    },
                }
            },
            Option::None => {
                chunk.push(first);
                proof {
                    assert(chunk@ =~= e.take(1));
                }
            },
        }

        loop
            invariant
                pre == *old(self),
                pre.wf(),
                self.waypoints@ == pre.waypoints@,
                self.budget_mm == pre.budget_mm,
                self.prev_last == pre.prev_last,
                rest == pre.remaining(),
                e == with_carry(pre.prev_last, rest),
                k0 == initial_len(pre.prev_last),
                budget == pre.budget_mm as int,
                j == cut(e, k0, budget),
                rest.len() > 0,
                k0 <= chunk@.len() <= e.len(),
                chunk@ == e.take(chunk@.len() as int),
                forall|i: int|
                    0 <= i && i + 1 < chunk@.len() ==> #[trigger] pair_ok(e[i], e[i + 1]),
                self.pos == pre.pos + chunk@.len() - k0 + 1,
                self.pos <= self.waypoints@.len(),
                !over ==> acc == path_mm(chunk@),
                over ==> path_mm(chunk@) > u64::MAX,
                cut(e, chunk@.len() as int, budget) == j,
            ensures
                self.waypoints@ == pre.waypoints@,
                self.budget_mm == pre.budget_mm,
                self.prev_last == pre.prev_last,
                self.pos <= self.waypoints@.len(),
                chunk@.len() == j,
                chunk@ == e.take(j),
                forall|i: int|
                    0 <= i && i + 1 < chunk@.len() ==> #[trigger] pair_ok(e[i], e[i + 1]),
                self.pos == pre.pos + j - k0 + 1,
                1 <= j <= e.len(),
            decreases e.len() - chunk@.len(),
        {
            let ghost k = chunk@.len() as int;
            let exceeded = over || self.budget_mm < 0 || acc > (self.budget_mm as u64);
            proof {
                assert(exceeded <==> path_mm(e.take(k)) > budget);
                assert(self.pos == self.waypoints@.len() <==> k == e.len());
            }
            if exceeded || self.pos == self.waypoints.len() {
                proof {
                    assert(j == k);
                }
                break;
            }
            let w = self.waypoints[self.pos];
            let last = chunk[chunk.len() - 1];
            proof {
                assert(last == e[k - 1]);
                assert(w == e[k]);
                assert(cut(e, k + 1, budget) == j);
                lemma_cut_properties(e, k + 1, budget);
            }
            match distance(&last, &w) {
                Ok(d) => {
                    proof {
                        lemma_path_step(e, k);
                    }
                    match acc.checked_add(d) {
                        Option::Some(s) => {
                            acc = s;
                        },
                        Option::None => {
                            over = true;
                        },
                    }
                    chunk.push(w);
                    self.pos = self.pos + 1;
                    proof {
                        assert(chunk@ =~= e.take(k + 1));
                    }
                },
                Err(err) => {
                    self.pos = self.waypoints.len();
                    self.prev_last = Option::None;
                    proof {
                        assert(!path_ok(e.take(j))) by {
                            if path_ok(e.take(j)) {
                                assert(pair_ok(e.take(j)[k - 1], e.take(j)[k - 1 + 1]));
                            }
                        }
                    }
                    return Option::Some(Err(err));
                },
            }
        }

        let last = chunk[chunk.len() - 1];
        self.prev_last = Option::Some(last);
        proof {
            let k = chunk@.len() as int;
            assert(path_ok(e.take(k))) by {
                assert forall|i: int| 0 <= i && i + 1 < e.take(k).len() implies #[trigger] pair_ok(
                    e.take(k)[i],
                    e.take(k)[i + 1],
                ) by {
                    assert(pair_ok(e[i], e[i + 1]));
                }
            }
            assert(last == e[k - 1]);
        }
        Option::Some(Ok(chunk))
    }
}

/// The views of a list of chunks.
pub open spec fn chunk_views(chunks: Seq<Vec<Waypoint>>) -> Seq<Seq<Waypoint>> {
    chunks.map_values(|c: Vec<Waypoint>| c@)
}

/// Split a whole route at once: pull chunks until the input is exhausted.
/// On a route whose every leg has a distance, the result is exactly the
/// chunk sequence of the specification; the first failing distance aborts
/// the whole run with its geometry error and no partial result.
pub fn split_route(waypoints: Vec<Waypoint>, budget_mm: i64) -> (r: Result<
    Vec<Vec<Waypoint>>,
    SplitError,
>)
    ensures
        r is Ok <==> path_ok(waypoints@),
        (r matches Ok(chunks) ==> chunk_views(chunks@) == spec_chunks(
            Option::None,
            waypoints@,
            budget_mm as int,
        )),
        (r matches Err(e) ==> e is Geometry),
{
    let ghost ws = waypoints@;
    let ghost budget = budget_mm as int;
    let mut gen = LimitDistance::new(waypoints, budget_mm);
    let mut out: Vec<Vec<Waypoint>> = Vec::new();
    proof {
        assert(gen.remaining() =~= ws);
        assert(chunk_views(out@) + spec_chunks(Option::None, ws, budget) =~= spec_chunks(
            Option::None,
            ws,
            budget,
        ));
    }
    loop
        invariant
            ws == waypoints@,
            gen.wf(),
            gen.waypoints@ == ws,
            gen.budget_mm == budget_mm,
            budget == budget_mm as int,
            gen.pos == 0 ==> gen.prev_last is None,
            gen.pos > 0 ==> gen.prev_last == Some(ws[gen.pos - 1]),
            path_ok(ws.take(gen.pos as int)),
            chunk_views(out@) + spec_chunks(gen.prev_last, gen.remaining(), budget)
                == spec_chunks(Option::None, ws, budget),
        ensures
            gen.remaining().len() == 0,
            gen.pos == ws.len(),
            path_ok(ws.take(gen.pos as int)),
            chunk_views(out@) + spec_chunks(gen.prev_last, gen.remaining(), budget)
                == spec_chunks(Option::None, ws, budget),
        decreases gen.remaining().len(),
    {
        let ghost pre = gen;
        let ghost rest = pre.remaining();
        let ghost carry = pre.prev_last;
        let ghost k0 = initial_len(carry);
        let ghost e = with_carry(carry, rest);
        let ghost j = cut(e, k0, budget);
        let ghost p0 = pre.pos - (k0 - 1);
        proof {
            assert(e =~= ws.skip(p0));
            if rest.len() > 0 {
                lemma_cut_properties(e, k0, budget);
            }
        }
        match gen.next() {
            Option::None => {
                break;
            },
            Option::Some(Ok(chunk)) => {
                proof {
                    let new_pos = gen.pos as int;
                    assert(new_pos == p0 + j);
                    assert(e[j - 1] == ws[new_pos - 1]);
                    assert(path_ok(ws.take(new_pos))) by {
                        assert forall|i: int| 0 <= i && i + 1 < new_pos implies #[trigger] pair_ok(
                            ws[i],
                            ws[i + 1],
                        ) by {
                            if i + 1 < pre.pos {
                                assert(pair_ok(
                                    ws.take(pre.pos as int)[i],
                                    ws.take(pre.pos as int)[i + 1],
                                ));
                            } else {
                                assert(pair_ok(e.take(j)[i - p0], e.take(j)[i - p0 + 1]));
                            }
                        }
                        assert forall|i: int|
                            0 <= i && i + 1 < ws.take(new_pos).len() implies #[trigger] pair_ok(
                            ws.take(new_pos)[i],
                            ws.take(new_pos)[i + 1],
                        ) by {
                            assert(pair_ok(ws[i], ws[i + 1]));
                        }
                    }
                    assert(gen.remaining() =~= rest.skip(j - k0 + 1));
                    assert(spec_chunks(carry, rest, budget) == seq![e.take(j)] + spec_chunks(
                        Option::Some(e[j - 1]),
                        rest.skip(j - k0 + 1),
                        budget,
                    ));
                    assert(chunk_views(out@.push(chunk)) =~= chunk_views(out@) + seq![chunk@]);
                    assert((chunk_views(out@) + seq![chunk@]) + spec_chunks(
                        gen.prev_last,
                        gen.remaining(),
                        budget,
                    ) =~= chunk_views(out@) + (seq![chunk@] + spec_chunks(
                        gen.prev_last,
                        gen.remaining(),
                        budget,
                    )));
                }
                out.push(chunk);
            },
            Option::Some(Err(err)) => {
                proof {
                    assert(!path_ok(ws)) by {
                        if path_ok(ws) {
                            assert forall|i: int|
                                0 <= i && i + 1 < e.take(j).len() implies #[trigger] pair_ok(
                                e.take(j)[i],
                                e.take(j)[i + 1],
                            ) by {
                                assert(pair_ok(ws[p0 + i], ws[p0 + i + 1]));
                            }
                            assert(path_ok(e.take(j)));
                        }
                    }
                }
                return Err(err);
            },
        }
    }
    proof {
        assert(ws.take(ws.len() as int) =~= ws);
        assert(spec_chunks(gen.prev_last, gen.remaining(), budget) =~= Seq::<Seq<Waypoint>>::empty());
        assert(chunk_views(out@) + Seq::<Seq<Waypoint>>::empty() =~= chunk_views(out@));
    }
    Ok(out)
}

/// With a carried boundary waypoint, dropping each chunk's first waypoint
/// and concatenating what is left gives back exactly the remaining input.
proof fn lemma_glue_tail(c: Waypoint, rest: Seq<Waypoint>, budget_mm: int)
    ensures
        glue_tail(spec_chunks(Option::Some(c), rest, budget_mm)) == rest,
    decreases rest.len(),
{
    let carry = Option::Some(c);
    let cs = spec_chunks(carry, rest, budget_mm);
    if rest.len() == 0 {
        assert(glue_tail(cs) =~= rest);
    } else {
        let e = with_carry(carry, rest);
        let j = cut(e, 2, budget_mm);
        let consumed = j - 1;
        lemma_cut_properties(e, 2, budget_mm);
        lemma_glue_tail(e[j - 1], rest.skip(consumed), budget_mm);
        assert(cs.skip(1) =~= spec_chunks(Option::Some(e[j - 1]), rest.skip(consumed), budget_mm));
        assert(cs[0].skip(1) =~= rest.take(consumed));
        assert(rest.take(consumed) + rest.skip(consumed) =~= rest);
    }
}

/// Law: nothing is lost and nothing is invented. For a non-empty route and
/// a positive budget, concatenating all emitted chunks, with each chunk
/// after the first contributing everything but its borrowed first waypoint,
/// yields exactly the original waypoint sequence.
pub proof fn lemma_chunks_cover_route(ws: Seq<Waypoint>, budget_mm: int)
    requires
        ws.len() > 0,
        budget_mm > 0,
    ensures
        glue(spec_chunks(Option::None, ws, budget_mm)) == ws,
{
    let cs = spec_chunks(Option::None, ws, budget_mm);
    let j = cut(ws, 1, budget_mm);
    lemma_cut_properties(ws, 1, budget_mm);
    assert(with_carry(Option::None, ws) == ws);
    lemma_glue_tail(ws[j - 1], ws.skip(j), budget_mm);
    assert(cs.skip(1) =~= spec_chunks(Option::Some(ws[j - 1]), ws.skip(j), budget_mm));
    assert(cs[0] == ws.take(j));
    assert(ws.take(j) + ws.skip(j) =~= ws);
}

/// Every chunk except possibly the last closes only because its accumulated
/// path length strictly exceeds the budget, whatever the carried waypoint.
proof fn lemma_nonlast_exceeds(carry: Option<Waypoint>, rest: Seq<Waypoint>, budget_mm: int)
    ensures
        forall|i: int|
            0 <= i < spec_chunks(carry, rest, budget_mm).len() - 1 ==> path_mm(
                #[trigger] spec_chunks(carry, rest, budget_mm)[i],
            ) > budget_mm,
    decreases rest.len(),
{
    let cs = spec_chunks(carry, rest, budget_mm);
    if rest.len() > 0 {
        let e = with_carry(carry, rest);
        let k0 = initial_len(carry);
        let j = cut(e, k0, budget_mm);
        let consumed = j - k0 + 1;
        let cs_rest = spec_chunks(Option::Some(e[j - 1]), rest.skip(consumed), budget_mm);
        lemma_cut_properties(e, k0, budget_mm);
        lemma_nonlast_exceeds(Option::Some(e[j - 1]), rest.skip(consumed), budget_mm);
        assert forall|i: int| 0 <= i < cs.len() - 1 implies path_mm(#[trigger] cs[i])
            > budget_mm by {
            if i == 0 {
                assert(cs_rest.len() > 0);
                assert(rest.skip(consumed).len() > 0);
                assert(j < e.len());
            } else {
                assert(cs[i] == cs_rest[i - 1]);
                assert(path_mm(cs_rest[i - 1]) > budget_mm);
            }
        }
    }
}

/// Law: for every budget, every chunk except the last has accumulated path
/// length strictly greater than the budget; only the final chunk, the tail
/// of the route, may come in at or under it.
pub proof fn lemma_chunks_exceed_budget(ws: Seq<Waypoint>, budget_mm: int)
    ensures
        forall|i: int|
            0 <= i < spec_chunks(Option::None, ws, budget_mm).len() - 1 ==> path_mm(
                #[trigger] spec_chunks(Option::None, ws, budget_mm)[i],
            ) > budget_mm,
{
    lemma_nonlast_exceeds(Option::None, ws, budget_mm);
}

/// Every chunk is non-empty, and with a carried boundary waypoint the first
/// chunk opens with exactly that waypoint.
proof fn lemma_chunks_first(carry: Option<Waypoint>, rest: Seq<Waypoint>, budget_mm: int)
    requires
        rest.len() > 0,
    ensures
        spec_chunks(carry, rest, budget_mm).len() > 0,
        spec_chunks(carry, rest, budget_mm)[0].len() >= initial_len(carry),
        (carry matches Some(c) ==> spec_chunks(carry, rest, budget_mm)[0][0] == c),
{
    let e = with_carry(carry, rest);
    lemma_cut_properties(e, initial_len(carry), budget_mm);
}

/// Chunks chain: every chunk is non-empty, and every chunk after the first
/// begins with the previous chunk's last waypoint, whatever the carry.
proof fn lemma_chunks_chain(carry: Option<Waypoint>, rest: Seq<Waypoint>, budget_mm: int)
    ensures
        forall|i: int|
            0 <= i < spec_chunks(carry, rest, budget_mm).len() ==> (#[trigger] spec_chunks(
                carry,
                rest,
                budget_mm,
            )[i]).len() >= 1,
        forall|i: int|
            1 <= i < spec_chunks(carry, rest, budget_mm).len() ==> (#[trigger] spec_chunks(
                carry,
                rest,
                budget_mm,
            )[i])[0] == spec_chunks(carry, rest, budget_mm)[i - 1].last(),
    decreases rest.len(),
{
    let cs = spec_chunks(carry, rest, budget_mm);
    if rest.len() > 0 {
        let e = with_carry(carry, rest);
        let k0 = initial_len(carry);
        let j = cut(e, k0, budget_mm);
        let consumed = j - k0 + 1;
        let cs_rest = spec_chunks(Option::Some(e[j - 1]), rest.skip(consumed), budget_mm);
        lemma_cut_properties(e, k0, budget_mm);
        lemma_chunks_chain(Option::Some(e[j - 1]), rest.skip(consumed), budget_mm);
        assert(cs[0].len() >= 1);
        assert forall|i: int| 1 <= i < cs.len() implies (#[trigger] cs[i])[0] == cs[i
            - 1].last() by {
            assert(cs[i] == cs_rest[i - 1]);
            if i == 1 {
                lemma_chunks_first(Option::Some(e[j - 1]), rest.skip(consumed), budget_mm);
                assert(cs[0].last() == e.take(j)[j - 1]);
            } else {
                assert(cs[i - 1] == cs_rest[i - 2]);
                assert(cs_rest[i - 1][0] == cs_rest[i - 2].last());
            }
        }
    }
}

/// Law: navigational continuity across file boundaries. Every chunk after
/// the first begins with a waypoint equal by value to the previous chunk's
/// last waypoint; and no chunk is ever empty.
pub proof fn lemma_chunks_share_boundary(ws: Seq<Waypoint>, budget_mm: int)
    ensures
        forall|i: int|
            0 <= i < spec_chunks(Option::None, ws, budget_mm).len() ==> (#[trigger] spec_chunks(
                Option::None,
                ws,
                budget_mm,
            )[i]).len() >= 1,
        forall|i: int|
            1 <= i < spec_chunks(Option::None, ws, budget_mm).len() ==> (#[trigger] spec_chunks(
                Option::None,
                ws,
                budget_mm,
            )[i])[0] == spec_chunks(Option::None, ws, budget_mm)[i - 1].last(),
{
    lemma_chunks_chain(Option::None, ws, budget_mm);
}

/// Law: a route of one waypoint, under any positive budget, makes exactly
/// one chunk holding exactly that waypoint.
pub proof fn lemma_single_waypoint_single_chunk(ws: Seq<Waypoint>, budget_mm: int)
    requires
        ws.len() == 1,
        budget_mm > 0,
    ensures
        spec_chunks(Option::None, ws, budget_mm) == seq![seq![ws[0]]],
{
    assert(with_carry(Option::None, ws) == ws);
    assert(cut(ws, 1, budget_mm) == 1);
    assert(ws.take(1) =~= seq![ws[0]]);
    assert(ws.skip(1).len() == 0);
    assert(spec_chunks(Option::Some(ws[0]), ws.skip(1), budget_mm) =~= Seq::<Seq<
        Waypoint,
    >>::empty());
    assert(spec_chunks(Option::None, ws, budget_mm) == seq![ws.take(1)] + spec_chunks(
        Option::Some(ws[0]),
        ws.skip(1),
        budget_mm,
    ));
    assert(spec_chunks(Option::None, ws, budget_mm) =~= seq![seq![ws[0]]]);
}

/// Law: an empty route produces no chunks at all.
pub proof fn lemma_empty_route_no_chunks(ws: Seq<Waypoint>, budget_mm: int)
    requires
        ws.len() == 0,
    ensures
        spec_chunks(Option::None, ws, budget_mm) == Seq::<Seq<Waypoint>>::empty(),
{
    assert(spec_chunks(Option::None, ws, budget_mm) =~= Seq::<Seq<Waypoint>>::empty());
}

} // verus!
