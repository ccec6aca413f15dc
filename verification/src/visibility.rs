//! The visibility engine: an angular sweep over segment start/end
//! events around the origin.
//!
//! The whole computation is specified first as a deterministic
//! mathematical model ([`vis_model`]) over unbounded integers, and
//! [`compute_visibility`] is proved to return exactly the model's
//! answer.  The model fails — and the corresponding input is excluded
//! from `compute_visibility`'s contract — precisely where the
//! computation's preconditions are violated: the origin lies on an
//! occluder, a comparison
//! between overlapping occluders is demanded, the boundary accumulator
//! is driven through an impossible transition, fewer than two events
//! exist, the result would be empty, or an intersection leaves the
//! machine-representable coordinate range.

use core::cmp::Ordering;

use vstd::prelude::*;

use crate::active::{
    active_insert, active_remove, idxs_view, insert_active, lemma_active_insert_elems,
    lemma_active_remove_elems, remove_active,
};
use crate::distance::{cmp_defined, cmp_spec, SegmentByDistance};
use crate::events::{
    ev_view, evs_view, gen_events, generate_events, sort_all_events, sorted_events, events_tied,
    lemma_gen_events_tied, lemma_sorted_events_tied, Event, GEvent,
};
use crate::point::{GPoint, Point};
use crate::segment::{
    dir_in_bounds, opt_point_view, ray_hit, ray_hit_raw, segs_view, GSeg, Segment,
};

verus! {

/// The boundary accumulator: an opened boundary vertex waiting for its
/// close, a dangling close from before the sweep's first event, and the
/// finished boundary segments.
#[verifier::ext_equal]
pub struct GAcc {
    pub pending_start: Option<GPoint>,
    pub pending_end: Option<GPoint>,
    pub out: Seq<GSeg>,
}

/// The sweep state: the active segment list plus the accumulator.
#[verifier::ext_equal]
pub struct GState {
    pub active: Seq<int>,
    pub acc: GAcc,
}

/// Records one boundary vertex.  A start vertex while one is already
/// open, or a second dangling end vertex, is an impossible transition
/// and fails; a closing vertex equal to the open start is dropped as a
/// degenerate boundary segment.
pub open spec fn add_vis(acc: GAcc, p: GPoint, is_start: bool) -> Option<GAcc> {
    if is_start {
        if acc.pending_start is Some {
            None
        } else {
            Some(GAcc { pending_start: Some(p), pending_end: acc.pending_end, out: acc.out })
        }
    } else {
        match acc.pending_start {
            Some(sp) => Some(
                GAcc {
                    pending_start: None,
                    pending_end: acc.pending_end,
                    out: if sp == p {
                        acc.out
                    } else {
                        acc.out.push(GSeg { a: sp, b: p })
                    },
                },
            ),
            None => {
                if acc.pending_end is Some {
                    None
                } else {
                    Some(GAcc { pending_start: None, pending_end: Some(p), out: acc.out })
                }
            },
        }
    }
}

/// A ray/line intersection as the sweep consumes it: a parallel miss is
/// kept as a miss, an intersection outside the coordinate range fails
/// the run (`None`), an in-range hit is passed on.
pub open spec fn checked_hit(s: GSeg, o: GPoint, d: GPoint) -> Option<Option<GPoint>> {
    match ray_hit_raw(s, o, d) {
        None => Some(None),
        Some(p) => if p.in_bounds() {
            Some(Some(p))
        } else {
            None
        },
    }
}

/// Records the boundary vertex a checked intersection produces, if any.
pub open spec fn add_hit(acc: GAcc, hit: Option<Option<GPoint>>, is_start: bool) -> Option<GAcc> {
    match hit {
        None => None,
        Some(h) => match h {
            None => Some(acc),
            Some(p) => add_vis(acc, p, is_start),
        },
    }
}

/// One sweep transition for the event `e`.
pub open spec fn sweep_step(o: GPoint, segs: Seq<GSeg>, st: GState, e: GEvent) -> Option<GState> {
    if st.active.len() > 0 && !cmp_defined(o, segs[e.idx], segs[st.active[0]]) {
        None
    } else if e.is_start {
        let is_new = st.active.len() == 0 || cmp_spec(o, segs[e.idx], segs[st.active[0]])
            == Ordering::Less;
        let acc1 = if is_new {
            let closed = if st.active.len() > 0 {
                add_hit(st.acc, checked_hit(segs[st.active[0]], o, e.point.sub(o)), false)
            } else {
                Some(st.acc)
            };
            match closed {
                None => None,
                Some(a) => add_vis(a, e.point, true),
            }
        } else {
            Some(st.acc)
        };
        match acc1 {
            None => None,
            Some(a) => match active_insert(o, segs, st.active, e.idx) {
                None => None,
                Some(act) => Some(GState { active: act, acc: a }),
            },
        }
    } else {
        let was_nearest = st.active.len() > 0 && cmp_spec(o, segs[e.idx], segs[st.active[0]])
            == Ordering::Equal;
        match active_remove(o, segs, st.active, e.idx) {
            None => None,
            Some(act) => {
                if was_nearest {
                    match add_vis(st.acc, e.point, false) {
                        None => None,
                        Some(a1) => {
                            let reopened = if act.len() > 0 {
                                add_hit(a1, checked_hit(segs[act[0]], o, e.point.sub(o)), true)
                            } else {
                                Some(a1)
                            };
                            match reopened {
                                None => None,
                                Some(a2) => Some(GState { active: act, acc: a2 }),
                            }
                        },
                    }
                } else {
                    Some(GState { active: act, acc: st.acc })
                }
            },
        }
    }
}

/// The sweep from event `k` on.
pub open spec fn sweep_rec(o: GPoint, segs: Seq<GSeg>, st: GState, evts: Seq<GEvent>, k: int)
    -> Option<GState>
    decreases evts.len() - k,
{
    if k < 0 || k >= evts.len() {
        Some(st)
    } else {
        match sweep_step(o, segs, st, evts[k]) {
            None => None,
            Some(s1) => sweep_rec(o, segs, s1, evts, k + 1),
        }
    }
}

/// Which segments are active when the sweep begins: a replay of every
/// event after the first, keeping the last start/end seen per segment.
pub open spec fn scan_flags(evts: Seq<GEvent>, k: int, flags: Seq<bool>) -> Seq<bool>
    decreases evts.len() - k,
{
    if k < 0 || k >= evts.len() {
        flags
    } else {
        scan_flags(evts, k + 1, flags.update(evts[k].idx, evts[k].is_start))
    }
}

/// All segments start inactive.
pub open spec fn initial_flags(n: nat) -> Seq<bool> {
    Seq::new(n, |i: int| false)
}

/// The initially active segments, inserted in index order.
pub open spec fn build_active(o: GPoint, segs: Seq<GSeg>, flags: Seq<bool>, i: int, act: Seq<int>)
    -> Option<Seq<int>>
    decreases flags.len() - i,
{
    if i < 0 || i >= flags.len() {
        Some(act)
    } else {
        let next = if flags[i] {
            active_insert(o, segs, act, i)
        } else {
            Some(act)
        };
        match next {
            None => None,
            Some(a) => build_active(o, segs, flags, i + 1, a),
        }
    }
}

/// Joins a start and an end left dangling across the wraparound seam
/// into one final boundary segment; a lone dangling vertex is an
/// impossible final state.
pub open spec fn finalize(acc: GAcc) -> Option<Seq<GSeg>> {
    match acc.pending_start {
        Some(sp) => match acc.pending_end {
            Some(ep) => Some(
                if sp == ep {
                    acc.out
                } else {
                    acc.out.push(GSeg { a: sp, b: ep })
                },
            ),
            None => None,
        },
        None => match acc.pending_end {
            Some(_) => None,
            None => Some(acc.out),
        },
    }
}

/// The model of the executable accumulator.
pub open spec fn acc_view(ps: Option<Point>, pe: Option<Point>, out: Seq<Segment>) -> GAcc {
    GAcc {
        pending_start: opt_point_view(ps),
        pending_end: opt_point_view(pe),
        out: segs_view(out),
    }
}

/// The executable accumulator holds only in-range points and
/// non-degenerate segments.
pub open spec fn acc_wf(ps: Option<Point>, pe: Option<Point>, out: Seq<Segment>) -> bool {
    &&& (ps is Some ==> ps.unwrap().wf())
    &&& (pe is Some ==> pe.unwrap().wf())
    &&& forall|k: int| 0 <= k < out.len() ==> (#[trigger] out[k]).wf()
}

/// Records one boundary vertex in the executable accumulator.
fn push_vis(
    ps: &mut Option<Point>,
    pe: &mut Option<Point>,
    out: &mut Vec<Segment>,
    p: Point,
    is_start: bool,
)
    requires
        p.wf(),
        acc_wf(*old(ps), *old(pe), old(out)@),
        add_vis(acc_view(*old(ps), *old(pe), old(out)@), p@, is_start) is Some,
    ensures
        acc_view(*final(ps), *final(pe), final(out)@) == add_vis(
            acc_view(*old(ps), *old(pe), old(out)@),
            p@,
            is_start,
        ).unwrap(),
        acc_wf(*final(ps), *final(pe), final(out)@),
{
    let ghost before = acc_view(*ps, *pe, out@);
    let ghost target = add_vis(before, p@, is_start).unwrap();
    if is_start {
        *ps = Some(p);
        proof {
            assert(acc_view(*ps, *pe, out@) =~= target);
        }
    } else {
        let cur = *ps;
        match cur {
            Some(sp) => {
                *ps = None;
                match Segment::new(sp, p) {
                    Some(seg) => {
                        let ghost prev = out@;
                        out.push(seg);
                        proof {
                            assert(segs_view(out@) =~= segs_view(prev).push(seg@));
                            assert(acc_view(*ps, *pe, out@) =~= target);
                        }
                    },
                    None => {
                        proof {
                            assert(acc_view(*ps, *pe, out@) =~= target);
                        }
                    },
                }
            },
            None => {
                *pe = Some(p);
                proof {
                    assert(acc_view(*ps, *pe, out@) =~= target);
                }
            },
        }
    }
}

/// Intersects the nearest active segment with the sweep ray and records
/// the vertex if the lines are not parallel.
fn emit_hit(
    origin: &Point,
    seg: &Segment,
    direction: Point,
    ps: &mut Option<Point>,
    pe: &mut Option<Point>,
    out: &mut Vec<Segment>,
    is_start: bool,
)
    requires
        origin.wf(),
        seg.wf(),
        dir_in_bounds(direction@),
        acc_wf(*old(ps), *old(pe), old(out)@),
        add_hit(
            acc_view(*old(ps), *old(pe), old(out)@),
            checked_hit(seg@, origin@, direction@),
            is_start,
        ) is Some,
    ensures
        acc_view(*final(ps), *final(pe), final(out)@) == add_hit(
            acc_view(*old(ps), *old(pe), old(out)@),
            checked_hit(seg@, origin@, direction@),
            is_start,
        ).unwrap(),
        acc_wf(*final(ps), *final(pe), final(out)@),
{
    match seg.intersect_with_ray(*origin, direction) {
        Some(p) => {
            push_vis(ps, pe, out, p, is_start);
        },
        None => {
            // Either the lines are parallel (the model keeps the
            // accumulator as it is) or the intersection fell out of
            // range, which the precondition excludes.
        },
    }
}

/// The complete visibility computation as a mathematical function of
/// the origin and the occluder list.  `None` marks the inputs on which
/// the computation's preconditions fail.
pub open spec fn vis_model(o: GPoint, segs: Seq<GSeg>) -> Option<Seq<GSeg>> {
    match gen_events(o, segs, 0) {
        None => None,
        Some(evts0) => {
            if evts0.len() < 2 {
                None
            } else {
                let evts = sorted_events(o, evts0);
                let flags = scan_flags(evts, 1, initial_flags(segs.len()));
                match build_active(o, segs, flags, 0, seq![]) {
                    None => None,
                    Some(act0) => {
                        let st0 = GState {
                            active: act0,
                            acc: GAcc { pending_start: None, pending_end: None, out: seq![] },
                        };
                        match sweep_rec(o, segs, st0, evts, 0) {
                            None => None,
                            Some(stf) => match finalize(stf.acc) {
                                None => None,
                                Some(out) => if out.len() >= 1 {
                                    Some(out)
                                } else {
                                    None
                                },
                            },
                        }
                    },
                }
            }
        },
    }
}

/// Determinism of the visibility computation: it is a mathematical
/// function of the origin and the occluder list, so two successful runs
/// on identical arguments return identical boundary lists — in
/// particular the same multiset of segments.
pub proof fn lemma_visibility_deterministic(
    o: GPoint,
    segs: Seq<GSeg>,
    r1: Seq<GSeg>,
    r2: Seq<GSeg>,
)
    requires
        vis_model(o, segs) == Some(r1),
        vis_model(o, segs) == Some(r2),
    ensures
        r1 == r2,
{
}

/// Computes the boundary segments of the region visible from `origin`
/// among the occluders `segments`.
///
/// The occluders must not cross except at shared endpoints, the origin
/// must not lie on any occluder, and the sweep over them must stay
/// within the machine-representable coordinate range; all of this is
/// captured by the model run succeeding.  The result is exactly the
/// model's boundary list: output segments are synthesized where the
/// nearest occluder changes, so they are in general clipped pieces of
/// the input segments, and every one of them is non-degenerate.
#[verifier::loop_isolation(false)]
pub fn compute_visibility(origin: Point, segments: &[Segment]) -> (r: Vec<Segment>)
    requires
        origin.wf(),
        forall|k: int| 0 <= k < segments@.len() ==> (#[trigger] segments@[k]).wf(),
        vis_model(origin@, segs_view(segments@)) is Some,
    ensures
        segs_view(r@) == vis_model(origin@, segs_view(segments@)).unwrap(),
        r@.len() >= 1,
        forall|k: int| 0 <= k < r@.len() ==> (#[trigger] r@[k]).wf(),
{
    let ghost o = origin@;
    let ghost sv = segs_view(segments@);
    let ghost result = vis_model(o, sv).unwrap();
    let ghost evts0 = gen_events(o, sv, 0).unwrap();
    let ghost evts = sorted_events(o, evts0);
    proof {
        lemma_gen_events_tied(o, sv, 0);
        lemma_sorted_events_tied(o, evts0, sv);
        crate::events::lemma_sorted_events_len(o, evts0);
    }

    let raw_events = generate_events(&origin, segments);
    proof {
        assert forall|k: int| 0 <= k < raw_events@.len() implies (
        #[trigger] raw_events@[k]).point.wf() by {
            assert(ev_view(raw_events@[k]) == evts0[k]);
            assert(sv[evts0[k].idx] == segments@[evts0[k].idx]@);
        }
    }
    let events = sort_all_events(&origin, &raw_events);
    proof {
        assert(evs_view(events@) == evts);
        assert forall|k: int| 0 <= k < events@.len() implies {
            &&& (#[trigger] events@[k]).point.wf()
            &&& events@[k].segment_index < segments@.len()
        } by {
            assert(ev_view(events@[k]) == evts[k]);
            assert(sv[evts[k].idx] == segments@[evts[k].idx]@);
        }
    }

    let n = segments.len();

    // Replay all events after the first to find the initially active
    // segments.
    let mut flags: Vec<bool> = Vec::new();
    let mut fi: usize = 0;
    while fi < n
        invariant
            fi <= n,
            flags@ == initial_flags(fi as nat),
        decreases n - fi,
    {
        flags.push(false);
        proof {
            assert(flags@ =~= initial_flags((fi + 1) as nat));
        }
        fi = fi + 1;
    }
    let ghost flags_spec = scan_flags(evts, 1, initial_flags(sv.len()));
    let mut k: usize = 1;
    while k < events.len()
        invariant
            1 <= k <= events.len(),
            flags@.len() == n,
            scan_flags(evts, k as int, flags@) == flags_spec,
        decreases events.len() - k,
    {
        let e = &events[k];
        let ghost before_flags = flags@;
        flags[e.segment_index] = e.is_start;
        proof {
            assert(ev_view(events@[k as int]) == evts[k as int]);
            assert(flags@ == before_flags.update(evts[k as int].idx, evts[k as int].is_start));
        }
        k = k + 1;
    }
    proof {
        assert(scan_flags(evts, events@.len() as int, flags@) == flags@);
    }

    // Insert the initially active segments in index order.
    let ghost act0 = build_active(o, sv, flags_spec, 0, seq![]).unwrap();
    let mut active: Vec<usize> = Vec::new();
    let mut ai: usize = 0;
    proof {
        assert(idxs_view(active@) =~= Seq::<int>::empty());
    }
    while ai < n
        invariant
            ai <= n,
            flags@.len() == n,
            build_active(o, sv, flags_spec, ai as int, idxs_view(active@)) is Some,
            build_active(o, sv, flags_spec, ai as int, idxs_view(active@)) == build_active(
                o,
                sv,
                flags_spec,
                0,
                Seq::<int>::empty(),
            ),
            forall|j: int| 0 <= j < active@.len() ==> (#[trigger] active@[j]) < n,
        decreases n - ai,
    {
        if flags[ai] {
            insert_active(&origin, segments, &mut active, ai);
        }
        ai = ai + 1;
    }
    proof {
        assert(idxs_view(active@) == act0);
    }

    // The sweep.
    let ghost st0 = GState {
        active: act0,
        acc: GAcc { pending_start: None, pending_end: None, out: seq![] },
    };
    let ghost stf = sweep_rec(o, sv, st0, evts, 0).unwrap();
    let mut pending_start: Option<Point> = None;
    let mut pending_end: Option<Point> = None;
    let mut out: Vec<Segment> = Vec::new();
    let mut k: usize = 0;
    proof {
        assert(segs_view(out@) =~= Seq::<GSeg>::empty());
        assert(acc_view(pending_start, pending_end, out@) =~= st0.acc);
        assert(GState {
            active: idxs_view(active@),
            acc: acc_view(pending_start, pending_end, out@),
        } =~= st0);
    }
    while k < events.len()
        invariant
            k <= events.len(),
            acc_wf(pending_start, pending_end, out@),
            forall|j: int| 0 <= j < active@.len() ==> (#[trigger] active@[j]) < n,
            sweep_rec(
                o,
                sv,
                GState {
                    active: idxs_view(active@),
                    acc: acc_view(pending_start, pending_end, out@),
                },
                evts,
                k as int,
            ) == Some(stf),
        decreases events.len() - k,
    {
        let ev = events[k];
        let ghost st_cur = GState {
            active: idxs_view(active@),
            acc: acc_view(pending_start, pending_end, out@),
        };
        let ghost ge = evts[k as int];
        let ghost st_next = sweep_step(o, sv, st_cur, ge).unwrap();
        proof {
            assert(ev_view(events@[k as int]) == ge);
            assert(sweep_step(o, sv, st_cur, ge) is Some);
            assert(sv[ge.idx] == segments@[ge.idx]@);
            if active@.len() > 0 {
                assert(idxs_view(active@)[0] == active@[0] as int);
                assert(sv[active@[0] as int] == segments@[active@[0] as int]@);
            }
        }
        let dirv = origin.dir(ev.point);
        proof {
            assert(dirv@ == ge.point.sub(o));
        }
        if ev.is_start {
            let is_new: bool = if active.len() == 0 {
                true
            } else {
                let sd_new = SegmentByDistance::new(origin, segments[ev.segment_index]);
                let sd_head = SegmentByDistance::new(origin, segments[active[0]]);
                let c = sd_new.cmp(&sd_head);
                matches!(c, Ordering::Less)
            };
            proof {
                assert(is_new == (st_cur.active.len() == 0 || cmp_spec(
                    o,
                    sv[ge.idx],
                    sv[st_cur.active[0]],
                ) == Ordering::Less));
            }
            if is_new {
                if active.len() > 0 {
                    let head = segments[active[0]];
                    emit_hit(
                        &origin,
                        &head,
                        dirv,
                        &mut pending_start,
                        &mut pending_end,
                        &mut out,
                        false,
                    );
                }
                push_vis(&mut pending_start, &mut pending_end, &mut out, ev.point, true);
            }
            insert_active(&origin, segments, &mut active, ev.segment_index);
            proof {
                assert(GState {
                    active: idxs_view(active@),
                    acc: acc_view(pending_start, pending_end, out@),
                } =~= st_next);
            }
        } else {
            let was_nearest: bool = if active.len() == 0 {
                false
            } else {
                let sd_new = SegmentByDistance::new(origin, segments[ev.segment_index]);
                let sd_head = SegmentByDistance::new(origin, segments[active[0]]);
                let c = sd_new.cmp(&sd_head);
                matches!(c, Ordering::Equal)
            };
            proof {
                assert(was_nearest == (st_cur.active.len() > 0 && cmp_spec(
                    o,
                    sv[ge.idx],
                    sv[st_cur.active[0]],
                ) == Ordering::Equal));
            }
            remove_active(&origin, segments, &mut active, ev.segment_index);
            if was_nearest {
                push_vis(&mut pending_start, &mut pending_end, &mut out, ev.point, false);
                if active.len() > 0 {
                    proof {
                        assert(idxs_view(active@)[0] == active@[0] as int);
                        assert(sv[active@[0] as int] == segments@[active@[0] as int]@);
                    }
                    let head = segments[active[0]];
                    emit_hit(
                        &origin,
                        &head,
                        dirv,
                        &mut pending_start,
                        &mut pending_end,
                        &mut out,
                        true,
                    );
                }
            }
            proof {
                assert(GState {
                    active: idxs_view(active@),
                    acc: acc_view(pending_start, pending_end, out@),
                } =~= st_next);
            }
        }
        k = k + 1;
    }
    proof {
        assert(acc_view(pending_start, pending_end, out@) == stf.acc);
    }

    // Join a start and an end left dangling across the wraparound seam.
    match pending_start {
        Some(sp) => {
            match pending_end {
                Some(ep) => {
                    match Segment::new(sp, ep) {
                        Some(seg) => {
                            let ghost prev = out@;
                            out.push(seg);
                            proof {
                                assert(segs_view(out@) =~= segs_view(prev).push(seg@));
                            }
                        },
                        None => {
                        },
                    }
                },
                None => {
                    proof {
                        assert(false);
                    }
                    return vstd::pervasive::unreached();
                },
            }
        },
        None => {
            match pending_end {
                Some(_) => {
                    proof {
                        assert(false);
                    }
                    return vstd::pervasive::unreached();
                },
                None => {
                },
            }
        },
    }
    proof {
        assert(segs_view(out@) == result);
    }
    out
}

} // verus!
