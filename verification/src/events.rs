//! Angular start/end events for the sweep.
//!
//! Every occluder segment, as seen from the origin, spans an angular
//! interval smaller than a half turn; the endpoint at the interval's low
//! end (by angle around the origin, measured from the positive x
//! direction, in `(-pi, pi]`) is its start event, the other its end
//! event.  Angle order is decided exactly, by half-plane class and one
//! cross product.  A segment collinear with the origin and entirely to
//! one side contributes no events; one containing the origin (or with
//! the origin between its endpoint directions) has no meaningful angular
//! interval and fails event generation.

use vstd::prelude::*;

use crate::point::{cross, dot, GPoint, Point, lemma_mul_bound};
use crate::segment::{segs_view, GSeg, Segment};

verus! {

/// Mathematical model of a sweep event.
pub struct GEvent {
    pub is_start: bool,
    pub idx: int,
    pub point: GPoint,
}

impl GEvent {
    /// The event moved by the displacement `v`.
    pub open spec fn translate(self, v: GPoint) -> GEvent {
        GEvent { is_start: self.is_start, idx: self.idx, point: self.point.add(v) }
    }
}

/// A sweep event, tied to an input segment by index.
#[derive(Clone, Copy)]
pub(crate) struct Event {
    pub is_start: bool,
    pub segment_index: usize,
    pub point: Point,
}

/// The model of an event.
pub(crate) open spec fn ev_view(e: Event) -> GEvent {
    GEvent { is_start: e.is_start, idx: e.segment_index as int, point: e.point@ }
}

/// The model of an event list.
pub(crate) open spec fn evs_view(s: Seq<Event>) -> Seq<GEvent> {
    s.map_values(|e: Event| ev_view(e))
}

/// Coarse angular class of a nonzero direction `u`, ordered as the angle
/// from the positive x axis in `(-pi, pi]`: the lower half plane first,
/// then the positive x axis, the upper half plane, the negative x axis.
pub open spec fn ang_group(u: GPoint) -> int {
    if u.y < 0 {
        0
    } else if u.y == 0 && u.x > 0 {
        1
    } else if u.y > 0 {
        2
    } else {
        3
    }
}

/// Strict sweep order on events around `o`: earlier angle first, and at
/// equal angles end events before start events.
pub open spec fn event_before(o: GPoint, e1: GEvent, e2: GEvent) -> bool {
    let u1 = e1.point.sub(o);
    let u2 = e2.point.sub(o);
    let g1 = ang_group(u1);
    let g2 = ang_group(u2);
    if g1 != g2 {
        g1 < g2
    } else if (g1 == 0 || g1 == 2) && cross(u1, u2) != 0 {
        cross(u1, u2) > 0
    } else {
        !e1.is_start && e2.is_start
    }
}

/// The events one segment contributes: none when it is collinear with
/// the origin and off to one side; failure when the origin lies within
/// it (no angular interval exists); otherwise a start/end pair with the
/// lower-angle endpoint first.
pub open spec fn seg_events(o: GPoint, s: GSeg, i: int) -> Option<Seq<GEvent>> {
    let u = s.a.sub(o);
    let v = s.b.sub(o);
    let c = cross(u, v);
    if c > 0 {
        Some(
            seq![
                GEvent { is_start: true, idx: i, point: s.a },
                GEvent { is_start: false, idx: i, point: s.b },
            ],
        )
    } else if c < 0 {
        Some(
            seq![
                GEvent { is_start: true, idx: i, point: s.b },
                GEvent { is_start: false, idx: i, point: s.a },
            ],
        )
    } else if dot(u, v) > 0 {
        Some(seq![])
    } else {
        None
    }
}

/// Events of the segments from index `i` on, in input order.
pub open spec fn gen_events(o: GPoint, segs: Seq<GSeg>, i: int) -> Option<Seq<GEvent>>
    decreases segs.len() - i,
{
    if i < 0 || i >= segs.len() {
        Some(seq![])
    } else {
        match seg_events(o, segs[i], i) {
            None => None,
            Some(es) => match gen_events(o, segs, i + 1) {
                None => None,
                Some(rest) => Some(es + rest),
            },
        }
    }
}

/// Every generated event carries an in-range index and an endpoint of
/// its own segment.
pub open spec fn events_tied(evts: Seq<GEvent>, segs: Seq<GSeg>) -> bool {
    forall|k: int|
        0 <= k < evts.len() ==> {
            &&& 0 <= #[trigger] evts[k].idx < segs.len()
            &&& (evts[k].point == segs[evts[k].idx].a || evts[k].point == segs[evts[k].idx].b)
        }
}

pub proof fn lemma_gen_events_tied(o: GPoint, segs: Seq<GSeg>, i: int)
    requires
        gen_events(o, segs, i) is Some,
    ensures
        events_tied(gen_events(o, segs, i).unwrap(), segs),
    decreases segs.len() - i,
{
    if i < 0 || i >= segs.len() {
    } else {
        lemma_gen_events_tied(o, segs, i + 1);
    }
}

/// Stable insertion of `e` into the sorted list `s`: after every element
/// not strictly later than `e`.
pub open spec fn insert_event(o: GPoint, e: GEvent, s: Seq<GEvent>) -> Seq<GEvent>
    decreases s.len(),
{
    if s.len() == 0 {
        seq![e]
    } else if event_before(o, e, s[0]) {
        seq![e] + s
    } else {
        seq![s[0]] + insert_event(o, e, s.drop_first())
    }
}

/// Stable insertion sort of the events by sweep order around `o`.
pub open spec fn sorted_events(o: GPoint, s: Seq<GEvent>) -> Seq<GEvent>
    decreases s.len(),
{
    if s.len() == 0 {
        s
    } else {
        insert_event(o, s.last(), sorted_events(o, s.drop_last()))
    }
}

/// Insertion grows a list by one.
pub proof fn lemma_insert_event_len(o: GPoint, e: GEvent, s: Seq<GEvent>)
    ensures
        insert_event(o, e, s).len() == s.len() + 1,
    decreases s.len(),
{
    if s.len() == 0 {
    } else if event_before(o, e, s[0]) {
    } else {
        lemma_insert_event_len(o, e, s.drop_first());
    }
}

/// Sorting keeps the number of events.
pub proof fn lemma_sorted_events_len(o: GPoint, s: Seq<GEvent>)
    ensures
        sorted_events(o, s).len() == s.len(),
    decreases s.len(),
{
    if s.len() == 0 {
    } else {
        lemma_sorted_events_len(o, s.drop_last());
        lemma_insert_event_len(o, s.last(), sorted_events(o, s.drop_last()));
    }
}

/// Insertion happens at the first position whose element is strictly
/// later than the new event.
proof fn lemma_insert_event_at(o: GPoint, e: GEvent, s: Seq<GEvent>, j: int)
    requires
        0 <= j <= s.len(),
        forall|k: int| 0 <= k < j ==> !event_before(o, e, #[trigger] s[k]),
        j < s.len() ==> event_before(o, e, s[j]),
    ensures
        insert_event(o, e, s) == s.take(j) + seq![e] + s.skip(j),
    decreases s.len(),
{
    if s.len() == 0 {
        assert(insert_event(o, e, s) =~= s.take(j) + seq![e] + s.skip(j));
    } else if j == 0 {
        assert(insert_event(o, e, s) =~= s.take(0) + seq![e] + s.skip(0));
    } else {
        assert(!event_before(o, e, s[0]));
        lemma_insert_event_at(o, e, s.drop_first(), j - 1);
        assert(s.drop_first().take(j - 1) =~= s.take(j).drop_first());
        assert(s.drop_first().skip(j - 1) =~= s.skip(j));
        assert(seq![s[0]] + (s.take(j).drop_first() + seq![e] + s.skip(j)) =~= s.take(j) + seq![e]
            + s.skip(j));
    }
}

/// Insertion preserves the tie between events and segments.
proof fn lemma_insert_event_tied(o: GPoint, e: GEvent, s: Seq<GEvent>, segs: Seq<GSeg>)
    requires
        events_tied(s, segs),
        0 <= e.idx < segs.len(),
        e.point == segs[e.idx].a || e.point == segs[e.idx].b,
    ensures
        events_tied(insert_event(o, e, s), segs),
    decreases s.len(),
{
    if s.len() == 0 {
    } else if event_before(o, e, s[0]) {
        let r = seq![e] + s;
        assert forall|k: int| 0 <= k < r.len() implies {
            &&& 0 <= #[trigger] r[k].idx < segs.len()
            &&& (r[k].point == segs[r[k].idx].a || r[k].point == segs[r[k].idx].b)
        } by {
            if k > 0 {
                assert(r[k] == s[k - 1]);
            }
        }
    } else {
        assert(events_tied(s.drop_first(), segs)) by {
            assert forall|k: int| 0 <= k < s.drop_first().len() implies {
                &&& 0 <= #[trigger] s.drop_first()[k].idx < segs.len()
                &&& (s.drop_first()[k].point == segs[s.drop_first()[k].idx].a || s.drop_first()[k].point
                    == segs[s.drop_first()[k].idx].b)
            } by {
                assert(s.drop_first()[k] == s[k + 1]);
            }
        }
        lemma_insert_event_tied(o, e, s.drop_first(), segs);
        let r = seq![s[0]] + insert_event(o, e, s.drop_first());
        let inner = insert_event(o, e, s.drop_first());
        assert forall|k: int| 0 <= k < r.len() implies {
            &&& 0 <= #[trigger] r[k].idx < segs.len()
            &&& (r[k].point == segs[r[k].idx].a || r[k].point == segs[r[k].idx].b)
        } by {
            if k > 0 {
                assert(r[k] == inner[k - 1]);
            }
        }
    }
}

/// Sorting preserves the tie between events and segments.
pub proof fn lemma_sorted_events_tied(o: GPoint, s: Seq<GEvent>, segs: Seq<GSeg>)
    requires
        events_tied(s, segs),
    ensures
        events_tied(sorted_events(o, s), segs),
    decreases s.len(),
{
    if s.len() == 0 {
    } else {
        assert(events_tied(s.drop_last(), segs)) by {
            assert forall|k: int| 0 <= k < s.drop_last().len() implies {
                &&& 0 <= #[trigger] s.drop_last()[k].idx < segs.len()
                &&& (s.drop_last()[k].point == segs[s.drop_last()[k].idx].a || s.drop_last()[k].point
                    == segs[s.drop_last()[k].idx].b)
            } by {
                assert(s.drop_last()[k] == s[k]);
            }
        }
        lemma_sorted_events_tied(o, s.drop_last(), segs);
        assert(s.last().idx < segs.len());
        lemma_insert_event_tied(o, s.last(), sorted_events(o, s.drop_last()), segs);
    }
}

/// Decides `event_before` executably.
fn event_earlier(origin: &Point, e1: &Event, e2: &Event) -> (r: bool)
    requires
        origin.wf(),
        e1.point.wf(),
        e2.point.wf(),
    ensures
        r == event_before(origin@, ev_view(*e1), ev_view(*e2)),
{
    let u1x: i64 = e1.point.x - origin.x;
    let u1y: i64 = e1.point.y - origin.y;
    let u2x: i64 = e2.point.x - origin.x;
    let u2y: i64 = e2.point.y - origin.y;
    let g1: u8 = if u1y < 0 {
        0
    } else if u1y == 0 && u1x > 0 {
        1
    } else if u1y > 0 {
        2
    } else {
        3
    };
    let g2: u8 = if u2y < 0 {
        0
    } else if u2y == 0 && u2x > 0 {
        1
    } else if u2y > 0 {
        2
    } else {
        3
    };
    if g1 != g2 {
        return g1 < g2;
    }
    if g1 == 0 || g1 == 2 {
        proof {
            lemma_mul_bound(u1x as int, u2y as int, 0x1_0000_0000);
            lemma_mul_bound(u1y as int, u2x as int, 0x1_0000_0000);
        }
        let c: i128 = (u1x as i128) * (u2y as i128) - (u1y as i128) * (u2x as i128);
        if c != 0 {
            return c > 0;
        }
    }
    !e1.is_start && e2.is_start
}

/// Builds the event list for all segments, in input order.
pub(crate) fn generate_events(origin: &Point, segments: &[Segment]) -> (r: Vec<Event>)
    requires
        origin.wf(),
        forall|k: int| 0 <= k < segments@.len() ==> (#[trigger] segments@[k]).wf(),
        gen_events(origin@, segs_view(segments@), 0) is Some,
    ensures
        evs_view(r@) == gen_events(origin@, segs_view(segments@), 0).unwrap(),
{
    let ghost o = origin@;
    let ghost sv = segs_view(segments@);
    let mut out: Vec<Event> = Vec::new();
    let mut i: usize = 0;
    proof {
        assert(evs_view(out@) + gen_events(o, sv, 0).unwrap() =~= gen_events(
            o,
            sv,
            0,
        ).unwrap());
    }
    while i < segments.len()
        invariant
            origin.wf(),
            forall|k: int| 0 <= k < segments@.len() ==> (#[trigger] segments@[k]).wf(),
            sv == segs_view(segments@),
            o == origin@,
            i <= segments.len(),
            gen_events(o, sv, 0) is Some,
            gen_events(o, sv, i as int) is Some,
            gen_events(o, sv, 0).unwrap() == evs_view(out@) + gen_events(
                o,
                sv,
                i as int,
            ).unwrap(),
        decreases segments.len() - i,
    {
        let s = &segments[i];
        let ghost gs = sv[i as int];
        let ux: i64 = s.a.x - origin.x;
        let uy: i64 = s.a.y - origin.y;
        let vx: i64 = s.b.x - origin.x;
        let vy: i64 = s.b.y - origin.y;
        proof {
            lemma_mul_bound(ux as int, vy as int, 0x1_0000_0000);
            lemma_mul_bound(uy as int, vx as int, 0x1_0000_0000);
            lemma_mul_bound(ux as int, vx as int, 0x1_0000_0000);
            lemma_mul_bound(uy as int, vy as int, 0x1_0000_0000);
        }
        let c: i128 = (ux as i128) * (vy as i128) - (uy as i128) * (vx as i128);
        let ghost seen = out@;
        let ghost evs_here = seg_events(o, gs, i as int).unwrap();
        proof {
            assert(c as int == cross(gs.a.sub(o), gs.b.sub(o)));
            assert(seg_events(o, gs, i as int) is Some);
        }
        if c > 0 {
            out.push(Event { is_start: true, segment_index: i, point: s.a });
            out.push(Event { is_start: false, segment_index: i, point: s.b });
        } else if c < 0 {
            out.push(Event { is_start: true, segment_index: i, point: s.b });
            out.push(Event { is_start: false, segment_index: i, point: s.a });
        } else {
            let d: i128 = (ux as i128) * (vx as i128) + (uy as i128) * (vy as i128);
            if d > 0 {
                // Collinear with the origin, both endpoints to one side:
                // the segment has no angular extent and is skipped.
            } else {
                // The origin lies on the segment; ruled out by the
                // requirement that event generation succeeds.
                proof {
                    assert(d as int == dot(gs.a.sub(o), gs.b.sub(o)));
                    assert(false);
                }
                return vstd::pervasive::unreached();
            }
        }
        proof {
            assert(evs_view(out@) =~= evs_view(seen) + evs_here);
            assert(gen_events(o, sv, i as int).unwrap() == evs_here + gen_events(
                o,
                sv,
                i + 1,
            ).unwrap());
            assert(evs_view(seen) + (evs_here + gen_events(o, sv, i + 1).unwrap()) =~= evs_view(
                out@,
            ) + gen_events(o, sv, i + 1).unwrap());
        }
        i = i + 1;
    }
    out
}

/// Sorts the events by sweep order around the origin, keeping the input
/// order of events that tie completely.
pub(crate) fn sort_all_events(origin: &Point, events: &Vec<Event>) -> (r: Vec<Event>)
    requires
        origin.wf(),
        forall|k: int| 0 <= k < events@.len() ==> (#[trigger] events@[k]).point.wf(),
    ensures
        evs_view(r@) == sorted_events(origin@, evs_view(events@)),
{
    let ghost o = origin@;
    let mut out: Vec<Event> = Vec::new();
    let mut i: usize = 0;
    proof {
        assert(evs_view(events@).take(0) =~= Seq::<GEvent>::empty());
        assert(evs_view(out@) =~= sorted_events(o, evs_view(events@).take(0)));
    }
    while i < events.len()
        invariant
            origin.wf(),
            o == origin@,
            i <= events.len(),
            forall|k: int| 0 <= k < events@.len() ==> (#[trigger] events@[k]).point.wf(),
            forall|k: int| 0 <= k < out@.len() ==> (#[trigger] out@[k]).point.wf(),
            evs_view(out@) == sorted_events(o, evs_view(events@).take(i as int)),
        decreases events.len() - i,
    {
        let e = events[i];
        let ghost before_ins = out@;
        let mut j: usize = 0;
        loop
            invariant
                origin.wf(),
                o == origin@,
                e.point.wf(),
                out@ == before_ins,
                forall|k: int| 0 <= k < out@.len() ==> (#[trigger] out@[k]).point.wf(),
                j <= out.len(),
                forall|k: int|
                    0 <= k < j ==> !event_before(o, ev_view(e), ev_view(#[trigger] out@[k])),
            ensures
                j <= out.len(),
                forall|k: int|
                    0 <= k < j ==> !event_before(o, ev_view(e), ev_view(#[trigger] out@[k])),
                j < out.len() ==> event_before(o, ev_view(e), ev_view(out@[j as int])),
            decreases out.len() - j,
        {
            if j >= out.len() {
                break ;
            }
            if event_earlier(origin, &e, &out[j]) {
                break ;
            }
            j = j + 1;
        }
        out.insert(j, e);
        proof {
            let ge = ev_view(e);
            let prev = evs_view(before_ins);
            assert forall|k: int| 0 <= k < j implies !event_before(o, ge, #[trigger] prev[k]) by {}
            lemma_insert_event_at(o, ge, prev, j as int);
            assert(evs_view(out@) =~= prev.take(j as int) + seq![ge] + prev.skip(j as int)) by {
                assert(out@ == before_ins.insert(j as int, e));
                assert forall|k: int| 0 <= k < out@.len() implies #[trigger] evs_view(out@)[k]
                    == (prev.take(j as int) + seq![ge] + prev.skip(j as int))[k] by {
                    if k < j {
                        assert(out@[k] == before_ins[k]);
                    } else if k == j {
                        assert(out@[k] == e);
                    } else {
                        assert(out@[k] == before_ins[k - 1]);
                    }
                }
            }
            assert(evs_view(out@) == insert_event(o, ge, prev));
            let tv = evs_view(events@).take(i + 1);
            assert(tv.drop_last() =~= evs_view(events@).take(i as int));
            assert(tv.last() == ge);
            assert(evs_view(out@) == sorted_events(o, tv));
            assert forall|k: int| 0 <= k < out@.len() implies (#[trigger] out@[k]).point.wf() by {
                if k < j {
                    assert(out@[k] == before_ins[k]);
                } else if k > j {
                    assert(out@[k] == before_ins[k - 1]);
                }
            }
        }
        i = i + 1;
    }
    proof {
        assert(evs_view(events@).take(events@.len() as int) =~= evs_view(events@));
    }
    out
}

} // verus!
