//! Translation invariance of the visibility computation.
//!
//! Moving the origin and every occluder by one common displacement moves
//! the computed boundary by exactly that displacement.  The proof walks
//! the model: side tests, distance comparisons, the segment order, event
//! generation and sorting, the active set and the sweep are each shown
//! to commute with translation; the only subtlety is the rounded ray
//! intersection, whose numerators shift by whole multiples of the
//! denominator, and the coordinate-range checks, which is why the law
//! speaks of two runs that both succeed.

use vstd::prelude::*;

use crate::active::{active_insert, active_remove};
use crate::distance::{cmp_defined, cmp_spec, min_end_dist_sq};
use crate::events::{
    gen_events, insert_event, seg_events, sorted_events, event_before, GEvent,
};
use crate::point::{gdist_sq, GPoint};
use crate::rounding::lemma_round_div_shift;
use crate::segment::{ray_hit_raw, side_of, seg_matches, GSeg};
use crate::visibility::{
    add_hit, add_vis, build_active, checked_hit, finalize, initial_flags, scan_flags, sweep_rec,
    sweep_step, vis_model, GAcc, GState,
};

verus! {

/// A segment list moved by `v`.
pub open spec fn translate_segs(s: Seq<GSeg>, v: GPoint) -> Seq<GSeg> {
    s.map_values(|g: GSeg| g.translate(v))
}

/// An event list moved by `v`.
pub open spec fn translate_events(s: Seq<GEvent>, v: GPoint) -> Seq<GEvent> {
    s.map_values(|e: GEvent| e.translate(v))
}

/// An optional point moved by `v`.
pub open spec fn translate_opt(p: Option<GPoint>, v: GPoint) -> Option<GPoint> {
    match p {
        None => None,
        Some(q) => Some(q.add(v)),
    }
}

/// An accumulator moved by `v`.
pub open spec fn translate_acc(acc: GAcc, v: GPoint) -> GAcc {
    GAcc {
        pending_start: translate_opt(acc.pending_start, v),
        pending_end: translate_opt(acc.pending_end, v),
        out: translate_segs(acc.out, v),
    }
}

/// A sweep state moved by `v`: the active indices are unchanged.
pub open spec fn translate_state(st: GState, v: GPoint) -> GState {
    GState { active: st.active, acc: translate_acc(st.acc, v) }
}

/// Side tests see only coordinate differences, which translation leaves
/// alone.
proof fn lemma_side_of_translate(s: GSeg, p: GPoint, v: GPoint)
    ensures
        side_of(s.translate(v), p.add(v)) == side_of(s, p),
{
    assert(s.translate(v).b.sub(s.translate(v).a) == s.b.sub(s.a));
    assert(p.add(v).sub(s.translate(v).a) == p.sub(s.a));
}

/// Squared distances see only coordinate differences.
proof fn lemma_dist_translate(q: GPoint, p: GPoint, v: GPoint)
    ensures
        gdist_sq(q.add(v), p.add(v)) == gdist_sq(q, p),
{
    assert(q.add(v).sub(p.add(v)) == q.sub(p));
}

/// The segment-by-distance order is translation invariant.
proof fn lemma_cmp_translate(q: GPoint, s1: GSeg, s2: GSeg, v: GPoint)
    ensures
        cmp_defined(q.add(v), s1.translate(v), s2.translate(v)) == cmp_defined(q, s1, s2),
        cmp_spec(q.add(v), s1.translate(v), s2.translate(v)) == cmp_spec(q, s1, s2),
{
    let s1t = s1.translate(v);
    let s2t = s2.translate(v);
    lemma_side_of_translate(s1, q, v);
    lemma_side_of_translate(s2, q, v);
    lemma_side_of_translate(s1, s2.a, v);
    lemma_side_of_translate(s1, s2.b, v);
    lemma_side_of_translate(s2, s1.a, v);
    lemma_side_of_translate(s2, s1.b, v);
    lemma_dist_translate(q, s1.a, v);
    lemma_dist_translate(q, s1.b, v);
    lemma_dist_translate(q, s2.a, v);
    lemma_dist_translate(q, s2.b, v);
    assert(s1t.a == s1.a.add(v) && s1t.b == s1.b.add(v));
    assert(s2t.a == s2.a.add(v) && s2t.b == s2.b.add(v));
    assert(seg_matches(s1t, s2t) == seg_matches(s1, s2));
    assert(min_end_dist_sq(q.add(v), s1t) == min_end_dist_sq(q, s1));
    assert(min_end_dist_sq(q.add(v), s2t) == min_end_dist_sq(q, s2));
}

/// How a two-by-two cross term changes when every coordinate shifts.
proof fn lemma_shift_product(a: int, b: int, c: int, d: int, vx: int, vy: int)
    ensures
        (a + vx) * (b + vy) - (c + vy) * (d + vx) == a * b - c * d + vy * (a - d) - vx * (c - b),
{
    assert((a + vx) * (b + vy) == a * b + a * vy + vx * b + vx * vy) by (nonlinear_arith);
    assert((c + vy) * (d + vx) == c * d + c * vx + vy * d + vy * vx) by (nonlinear_arith);
    assert(vy * (a - d) == vy * a - vy * d) by (nonlinear_arith);
    assert(vx * (c - b) == vx * c - vx * b) by (nonlinear_arith);
}

/// How the intersection numerators move when every coordinate shifts:
/// by a whole multiple of the denominator.
proof fn lemma_numerator_shift(
    sab: int,
    sod: int,
    aa: int,
    dd: int,
    cc: int,
    ee: int,
    vx: int,
    vy: int,
)
    ensures
        (sab + vy * aa - vx * dd) * cc - aa * (sod + vy * cc - vx * ee) == sab * cc - aa * sod + vx
            * (aa * ee - dd * cc),
        (sab + vy * aa - vx * dd) * ee - dd * (sod + vy * cc - vx * ee) == sab * ee - dd * sod + vy
            * (aa * ee - dd * cc),
{
    assert((sab + vy * aa - vx * dd) * cc == sab * cc + vy * aa * cc - vx * dd * cc)
        by (nonlinear_arith);
    assert(aa * (sod + vy * cc - vx * ee) == aa * sod + vy * aa * cc - vx * aa * ee)
        by (nonlinear_arith);
    assert(vx * (aa * ee - dd * cc) == vx * aa * ee - vx * dd * cc) by (nonlinear_arith);
    assert((sab + vy * aa - vx * dd) * ee == sab * ee + vy * aa * ee - vx * dd * ee)
        by (nonlinear_arith);
    assert(dd * (sod + vy * cc - vx * ee) == dd * sod + vy * dd * cc - vx * dd * ee)
        by (nonlinear_arith);
    assert(vy * (aa * ee - dd * cc) == vy * aa * ee - vy * dd * cc) by (nonlinear_arith);
}

/// The rounded ray/line intersection commutes with translation: the
/// denominator is built from differences, and both numerators shift by a
/// whole multiple of it.
proof fn lemma_ray_hit_raw_translate(s: GSeg, o: GPoint, d: GPoint, v: GPoint)
    ensures
        ray_hit_raw(s.translate(v), o.add(v), d) == translate_opt(ray_hit_raw(s, o, d), v),
{
    let x1 = s.a.x;
    let y1 = s.a.y;
    let x2 = s.b.x;
    let y2 = s.b.y;
    let x3 = o.x;
    let y3 = o.y;
    let x4 = o.x + d.x;
    let y4 = o.y + d.y;
    let vx = v.x;
    let vy = v.y;
    let aa = x1 - x2;
    let dd = y1 - y2;
    let cc = x3 - x4;
    let ee = y3 - y4;
    let den = aa * ee - dd * cc;
    let sab = x1 * y2 - y1 * x2;
    let sod = x3 * y4 - y3 * x4;
    let sabt = (x1 + vx) * (y2 + vy) - (y1 + vy) * (x2 + vx);
    let sodt = (x3 + vx) * (y4 + vy) - (y3 + vy) * (x4 + vx);
    lemma_shift_product(x1, y2, y1, x2, vx, vy);
    assert(sabt == sab + vy * aa - vx * dd);
    lemma_shift_product(x3, y4, y3, x4, vx, vy);
    assert(sodt == sod + vy * cc - vx * ee);
    let xn = sab * cc - aa * sod;
    let yn = sab * ee - dd * sod;
    let xnt = sabt * cc - aa * sodt;
    let ynt = sabt * ee - dd * sodt;
    lemma_numerator_shift(sab, sod, aa, dd, cc, ee, vx, vy);
    assert(xnt == xn + vx * den);
    assert(ynt == yn + vy * den);
    if den != 0 {
        lemma_round_div_shift(xn, den, vx);
        lemma_round_div_shift(yn, den, vy);
        assert(xn + vx * den == xnt);
        assert(yn + vy * den == ynt);
    }
}

/// The sweep order of two events is translation invariant.
proof fn lemma_event_before_translate(o: GPoint, e1: GEvent, e2: GEvent, v: GPoint)
    ensures
        event_before(o.add(v), e1.translate(v), e2.translate(v)) == event_before(o, e1, e2),
{
    assert(e1.translate(v).point.sub(o.add(v)) == e1.point.sub(o));
    assert(e2.translate(v).point.sub(o.add(v)) == e2.point.sub(o));
}

/// One segment's events translate with the segment.
proof fn lemma_seg_events_translate(o: GPoint, s: GSeg, i: int, v: GPoint)
    ensures
        seg_events(o.add(v), s.translate(v), i) == match seg_events(o, s, i) {
            None => None,
            Some(es) => Some(translate_events(es, v)),
        },
{
    let st = s.translate(v);
    let ot = o.add(v);
    assert(st.a.sub(ot) == s.a.sub(o));
    assert(st.b.sub(ot) == s.b.sub(o));
    match seg_events(o, s, i) {
        None => {},
        Some(es) => {
            assert(seg_events(ot, st, i).unwrap() =~= translate_events(es, v));
        },
    }
}

/// The whole event list translates with the scene.
proof fn lemma_gen_events_translate(o: GPoint, segs: Seq<GSeg>, i: int, v: GPoint)
    ensures
        gen_events(o.add(v), translate_segs(segs, v), i) == match gen_events(o, segs, i) {
            None => None,
            Some(es) => Some(translate_events(es, v)),
        },
    decreases segs.len() - i,
{
    let segst = translate_segs(segs, v);
    if i < 0 || i >= segs.len() {
        assert(translate_events(seq![], v) =~= Seq::<GEvent>::empty());
    } else {
        assert(segst[i] == segs[i].translate(v));
        lemma_seg_events_translate(o, segs[i], i, v);
        lemma_gen_events_translate(o, segs, i + 1, v);
        match seg_events(o, segs[i], i) {
            None => {},
            Some(es) => {
                match gen_events(o, segs, i + 1) {
                    None => {},
                    Some(rest) => {
                        assert(translate_events(es + rest, v) =~= translate_events(es, v)
                            + translate_events(rest, v));
                    },
                }
            },
        }
    }
}

/// Stable insertion commutes with translation.
proof fn lemma_insert_event_translate(o: GPoint, e: GEvent, s: Seq<GEvent>, v: GPoint)
    ensures
        insert_event(o.add(v), e.translate(v), translate_events(s, v)) == translate_events(
            insert_event(o, e, s),
            v,
        ),
    decreases s.len(),
{
    let stv = translate_events(s, v);
    if s.len() == 0 {
        assert(insert_event(o.add(v), e.translate(v), stv) =~= translate_events(
            insert_event(o, e, s),
            v,
        ));
    } else {
        assert(stv[0] == s[0].translate(v));
        lemma_event_before_translate(o, e, s[0], v);
        if event_before(o, e, s[0]) {
            assert(seq![e.translate(v)] + stv =~= translate_events(seq![e] + s, v));
        } else {
            assert(stv.drop_first() =~= translate_events(s.drop_first(), v));
            lemma_insert_event_translate(o, e, s.drop_first(), v);
            assert(seq![stv[0]] + insert_event(o.add(v), e.translate(v), stv.drop_first())
                =~= translate_events(seq![s[0]] + insert_event(o, e, s.drop_first()), v));
        }
    }
}

/// Sorting commutes with translation.
proof fn lemma_sorted_events_translate(o: GPoint, s: Seq<GEvent>, v: GPoint)
    ensures
        sorted_events(o.add(v), translate_events(s, v)) == translate_events(
            sorted_events(o, s),
            v,
        ),
    decreases s.len(),
{
    let stv = translate_events(s, v);
    if s.len() == 0 {
        assert(stv =~= translate_events(sorted_events(o, s), v));
    } else {
        assert(stv.drop_last() =~= translate_events(s.drop_last(), v));
        assert(stv.last() == s.last().translate(v));
        lemma_sorted_events_translate(o, s.drop_last(), v);
        lemma_insert_event_translate(o, s.last(), sorted_events(o, s.drop_last()), v);
    }
}

/// Active-set insertion sees the same comparisons after translation.
proof fn lemma_active_insert_translate(q: GPoint, segs: Seq<GSeg>, act: Seq<int>, i: int, v: GPoint)
    requires
        0 <= i < segs.len(),
        forall|k: int| 0 <= k < act.len() ==> 0 <= #[trigger] act[k] < segs.len(),
    ensures
        active_insert(q.add(v), translate_segs(segs, v), act, i) == active_insert(q, segs, act, i),
    decreases act.len(),
{
    let segst = translate_segs(segs, v);
    if act.len() == 0 {
    } else {
        assert(segst[i] == segs[i].translate(v));
        assert(0 <= act[0] < segs.len());
        assert(segst[act[0]] == segs[act[0]].translate(v));
        lemma_cmp_translate(q, segs[i], segs[act[0]], v);
        assert(forall|k: int|
            0 <= k < act.drop_first().len() ==> 0 <= #[trigger] act.drop_first()[k] < segs.len());
        lemma_active_insert_translate(q, segs, act.drop_first(), i, v);
    }
}

/// Active-set removal sees the same comparisons after translation.
proof fn lemma_active_remove_translate(q: GPoint, segs: Seq<GSeg>, act: Seq<int>, i: int, v: GPoint)
    requires
        0 <= i < segs.len(),
        forall|k: int| 0 <= k < act.len() ==> 0 <= #[trigger] act[k] < segs.len(),
    ensures
        active_remove(q.add(v), translate_segs(segs, v), act, i) == active_remove(q, segs, act, i),
    decreases act.len(),
{
    let segst = translate_segs(segs, v);
    if act.len() == 0 {
    } else {
        assert(segst[i] == segs[i].translate(v));
        assert(0 <= act[0] < segs.len());
        assert(segst[act[0]] == segs[act[0]].translate(v));
        lemma_cmp_translate(q, segs[i], segs[act[0]], v);
        assert(forall|k: int|
            0 <= k < act.drop_first().len() ==> 0 <= #[trigger] act.drop_first()[k] < segs.len());
        lemma_active_remove_translate(q, segs, act.drop_first(), i, v);
    }
}

/// The replay of start/end flags reads nothing translation changes.
proof fn lemma_scan_flags_translate(evts: Seq<GEvent>, k: int, flags: Seq<bool>, v: GPoint)
    ensures
        scan_flags(translate_events(evts, v), k, flags) == scan_flags(evts, k, flags),
    decreases evts.len() - k,
{
    if k < 0 || k >= evts.len() {
    } else {
        assert(translate_events(evts, v)[k] == evts[k].translate(v));
        lemma_scan_flags_translate(evts, k + 1, flags.update(evts[k].idx, evts[k].is_start), v);
    }
}

/// Building the initial active set commutes with translation.
proof fn lemma_build_active_translate(
    q: GPoint,
    segs: Seq<GSeg>,
    flags: Seq<bool>,
    i: int,
    act: Seq<int>,
    v: GPoint,
)
    requires
        flags.len() <= segs.len(),
        forall|k: int| 0 <= k < act.len() ==> 0 <= #[trigger] act[k] < segs.len(),
    ensures
        build_active(q.add(v), translate_segs(segs, v), flags, i, act) == build_active(
            q,
            segs,
            flags,
            i,
            act,
        ),
    decreases flags.len() - i,
{
    if i < 0 || i >= flags.len() {
    } else {
        if flags[i] {
            lemma_active_insert_translate(q, segs, act, i, v);
            match active_insert(q, segs, act, i) {
                None => {},
                Some(a) => {
                    crate::active::lemma_active_insert_elems(q, segs, act, i);
                    assert(forall|k: int| 0 <= k < a.len() ==> 0 <= #[trigger] a[k] < segs.len());
                    lemma_build_active_translate(q, segs, flags, i + 1, a, v);
                },
            }
        } else {
            lemma_build_active_translate(q, segs, flags, i + 1, act, v);
        }
    }
}

/// A successful initial active set holds only in-range indices.
proof fn lemma_build_active_range(q: GPoint, segs: Seq<GSeg>, flags: Seq<bool>, i: int, act: Seq<int>)
    requires
        flags.len() <= segs.len(),
        forall|k: int| 0 <= k < act.len() ==> 0 <= #[trigger] act[k] < segs.len(),
        build_active(q, segs, flags, i, act) is Some,
    ensures
        forall|k: int|
            0 <= k < build_active(q, segs, flags, i, act).unwrap().len() ==> 0
                <= #[trigger] build_active(q, segs, flags, i, act).unwrap()[k] < segs.len(),
    decreases flags.len() - i,
{
    if i < 0 || i >= flags.len() {
    } else {
        if flags[i] {
            match active_insert(q, segs, act, i) {
                None => {},
                Some(a) => {
                    crate::active::lemma_active_insert_elems(q, segs, act, i);
                    assert(forall|k: int| 0 <= k < a.len() ==> 0 <= #[trigger] a[k] < segs.len());
                    lemma_build_active_range(q, segs, flags, i + 1, a);
                },
            }
        } else {
            lemma_build_active_range(q, segs, flags, i + 1, act);
        }
    }
}

/// The replay keeps the flag list's length.
proof fn lemma_scan_flags_len(evts: Seq<GEvent>, k: int, flags: Seq<bool>)
    requires
        forall|j: int| 0 <= j < evts.len() ==> 0 <= (#[trigger] evts[j]).idx < flags.len(),
    ensures
        scan_flags(evts, k, flags).len() == flags.len(),
    decreases evts.len() - k,
{
    if k < 0 || k >= evts.len() {
    } else {
        lemma_scan_flags_len(evts, k + 1, flags.update(evts[k].idx, evts[k].is_start));
    }
}

/// Recording a boundary vertex commutes with translation.
proof fn lemma_add_vis_translate(acc: GAcc, p: GPoint, is_start: bool, v: GPoint)
    ensures
        add_vis(translate_acc(acc, v), p.add(v), is_start) == match add_vis(acc, p, is_start) {
            None => None,
            Some(a) => Some(translate_acc(a, v)),
        },
{
    let acct = translate_acc(acc, v);
    if is_start {
        if acc.pending_start is None {
            assert(add_vis(acct, p.add(v), is_start).unwrap() =~= translate_acc(
                add_vis(acc, p, is_start).unwrap(),
                v,
            ));
        }
    } else {
        match acc.pending_start {
            Some(sp) => {
                assert(sp.add(v) == p.add(v) <==> sp == p);
                if sp == p {
                    assert(add_vis(acct, p.add(v), is_start).unwrap() =~= translate_acc(
                        add_vis(acc, p, is_start).unwrap(),
                        v,
                    ));
                } else {
                    assert(translate_segs(acc.out.push(GSeg { a: sp, b: p }), v) =~= translate_segs(
                        acc.out,
                        v,
                    ).push(GSeg { a: sp.add(v), b: p.add(v) }));
                    assert(add_vis(acct, p.add(v), is_start).unwrap() =~= translate_acc(
                        add_vis(acc, p, is_start).unwrap(),
                        v,
                    ));
                }
            },
            None => {
                if acc.pending_end is None {
                    assert(add_vis(acct, p.add(v), is_start).unwrap() =~= translate_acc(
                        add_vis(acc, p, is_start).unwrap(),
                        v,
                    ));
                }
            },
        }
    }
}

/// One sweep transition commutes with translation, whenever both the
/// original and the translated transition succeed.
proof fn lemma_sweep_step_translate(
    o: GPoint,
    segs: Seq<GSeg>,
    st: GState,
    e: GEvent,
    v: GPoint,
    st1: GState,
    st2: GState,
)
    requires
        0 <= e.idx < segs.len(),
        forall|k: int| 0 <= k < st.active.len() ==> 0 <= #[trigger] st.active[k] < segs.len(),
        sweep_step(o, segs, st, e) == Some(st1),
        sweep_step(o.add(v), translate_segs(segs, v), translate_state(st, v), e.translate(v))
            == Some(st2),
    ensures
        st2 == translate_state(st1, v),
        forall|k: int| 0 <= k < st1.active.len() ==> 0 <= #[trigger] st1.active[k] < segs.len(),
{
    let segst = translate_segs(segs, v);
    let ot = o.add(v);
    let et = e.translate(v);
    let stt = translate_state(st, v);
    let d = e.point.sub(o);
    assert(et.point.sub(ot) == d);
    assert(segst[e.idx] == segs[e.idx].translate(v));
    if st.active.len() > 0 {
        assert(0 <= st.active[0] < segs.len());
        assert(segst[st.active[0]] == segs[st.active[0]].translate(v));
        lemma_cmp_translate(o, segs[e.idx], segs[st.active[0]], v);
    }
    if e.is_start {
        let is_new = st.active.len() == 0 || cmp_spec(o, segs[e.idx], segs[st.active[0]])
            == core::cmp::Ordering::Less;
        if is_new && st.active.len() > 0 {
            lemma_ray_hit_raw_translate(segs[st.active[0]], o, d, v);
            match ray_hit_raw(segs[st.active[0]], o, d) {
                None => {},
                Some(p) => {
                    assert(p.in_bounds());
                    assert(p.add(v).in_bounds());
                    lemma_add_vis_translate(st.acc, p, false, v);
                },
            }
        }
        let closed = if st.active.len() > 0 && is_new {
            add_hit(st.acc, checked_hit(segs[st.active[0]], o, d), false)
        } else {
            Some(st.acc)
        };
        if is_new {
            lemma_add_vis_translate(closed.unwrap(), e.point, true, v);
        }
        lemma_active_insert_translate(o, segs, st.active, e.idx, v);
        crate::active::lemma_active_insert_elems(o, segs, st.active, e.idx);
        assert(st2.acc =~= translate_acc(st1.acc, v));
        assert(st2 =~= translate_state(st1, v));
    } else {
        lemma_active_remove_translate(o, segs, st.active, e.idx, v);
        crate::active::lemma_active_remove_elems(o, segs, st.active, e.idx);
        let was_nearest = st.active.len() > 0 && cmp_spec(o, segs[e.idx], segs[st.active[0]])
            == core::cmp::Ordering::Equal;
        let act = active_remove(o, segs, st.active, e.idx).unwrap();
        assert(forall|k: int| 0 <= k < act.len() ==> 0 <= #[trigger] act[k] < segs.len()) by {
            assert(forall|k: int|
                0 <= k < act.len() ==> st.active.contains(#[trigger] act[k]));
        }
        if was_nearest {
            lemma_add_vis_translate(st.acc, e.point, false, v);
            let a1 = add_vis(st.acc, e.point, false).unwrap();
            if act.len() > 0 {
                assert(0 <= act[0] < segs.len());
                assert(segst[act[0]] == segs[act[0]].translate(v));
                lemma_ray_hit_raw_translate(segs[act[0]], o, d, v);
                match ray_hit_raw(segs[act[0]], o, d) {
                    None => {},
                    Some(p) => {
                        assert(p.in_bounds());
                        assert(p.add(v).in_bounds());
                        lemma_add_vis_translate(a1, p, true, v);
                    },
                }
            }
        }
        assert(st2.acc =~= translate_acc(st1.acc, v));
        assert(st2 =~= translate_state(st1, v));
    }
}

/// The whole sweep commutes with translation, whenever both the
/// original and the translated sweep succeed.
proof fn lemma_sweep_rec_translate(
    o: GPoint,
    segs: Seq<GSeg>,
    st: GState,
    evts: Seq<GEvent>,
    k: int,
    v: GPoint,
    r1: GState,
    r2: GState,
)
    requires
        forall|j: int| 0 <= j < evts.len() ==> 0 <= (#[trigger] evts[j]).idx < segs.len(),
        forall|j: int| 0 <= j < st.active.len() ==> 0 <= #[trigger] st.active[j] < segs.len(),
        sweep_rec(o, segs, st, evts, k) == Some(r1),
        sweep_rec(
            o.add(v),
            translate_segs(segs, v),
            translate_state(st, v),
            translate_events(evts, v),
            k,
        ) == Some(r2),
    ensures
        r2 == translate_state(r1, v),
    decreases evts.len() - k,
{
    let evtst = translate_events(evts, v);
    assert(evtst.len() == evts.len());
    if k < 0 || k >= evts.len() {
        assert(r2 == translate_state(r1, v));
    } else {
        assert(evtst[k] == evts[k].translate(v));
        let s1 = sweep_step(o, segs, st, evts[k]).unwrap();
        let s2 = sweep_step(
            o.add(v),
            translate_segs(segs, v),
            translate_state(st, v),
            evtst[k],
        ).unwrap();
        lemma_sweep_step_translate(o, segs, st, evts[k], v, s1, s2);
        lemma_sweep_rec_translate(o, segs, s1, evts, k + 1, v, r1, r2);
    }
}

/// Joining the wraparound seam commutes with translation.
proof fn lemma_finalize_translate(acc: GAcc, v: GPoint)
    ensures
        finalize(translate_acc(acc, v)) == match finalize(acc) {
            None => None,
            Some(s) => Some(translate_segs(s, v)),
        },
{
    match acc.pending_start {
        Some(sp) => {
            match acc.pending_end {
                Some(ep) => {
                    assert(sp.add(v) == ep.add(v) <==> sp == ep);
                    if sp == ep {
                    } else {
                        assert(translate_segs(acc.out.push(GSeg { a: sp, b: ep }), v)
                            =~= translate_segs(acc.out, v).push(
                            GSeg { a: sp.add(v), b: ep.add(v) },
                        ));
                    }
                },
                None => {},
            }
        },
        None => {},
    }
}

/// Translation invariance of the visibility computation: when the
/// computation succeeds both on a scene and on the same scene moved by a
/// common displacement `v`, the boundary of the moved scene is the
/// boundary of the original scene moved by `v`.
pub proof fn lemma_visibility_translation(
    o: GPoint,
    segs: Seq<GSeg>,
    v: GPoint,
    r1: Seq<GSeg>,
    r2: Seq<GSeg>,
)
    requires
        vis_model(o, segs) == Some(r1),
        vis_model(o.add(v), translate_segs(segs, v)) == Some(r2),
    ensures
        r2 == translate_segs(r1, v),
{
    let segst = translate_segs(segs, v);
    let ot = o.add(v);
    assert(segst.len() == segs.len());
    lemma_gen_events_translate(o, segs, 0, v);
    let evts0 = gen_events(o, segs, 0).unwrap();
    let evts0t = translate_events(evts0, v);
    assert(evts0t.len() == evts0.len());
    lemma_sorted_events_translate(o, evts0, v);
    let evts = sorted_events(o, evts0);
    let evtst = translate_events(evts, v);
    assert(sorted_events(ot, evts0t) == evtst);
    crate::events::lemma_gen_events_tied(o, segs, 0);
    crate::events::lemma_sorted_events_tied(o, evts0, segs);
    assert(forall|j: int| 0 <= j < evts.len() ==> 0 <= (#[trigger] evts[j]).idx < segs.len());
    lemma_scan_flags_translate(evts, 1, initial_flags(segs.len()), v);
    let flags = scan_flags(evts, 1, initial_flags(segs.len()));
    lemma_scan_flags_len(evts, 1, initial_flags(segs.len()));
    assert(flags.len() == segs.len());
    lemma_build_active_translate(o, segs, flags, 0, seq![], v);
    let act0 = build_active(o, segs, flags, 0, seq![]).unwrap();
    lemma_build_active_range(o, segs, flags, 0, seq![]);
    let st0 = GState {
        active: act0,
        acc: GAcc { pending_start: None, pending_end: None, out: seq![] },
    };
    assert(translate_segs(Seq::<GSeg>::empty(), v) =~= Seq::<GSeg>::empty());
    assert(translate_state(st0, v) =~= GState {
        active: act0,
        acc: GAcc { pending_start: None, pending_end: None, out: seq![] },
    });
    let stf1 = sweep_rec(o, segs, st0, evts, 0).unwrap();
    let stf2 = sweep_rec(ot, segst, translate_state(st0, v), evtst, 0).unwrap();
    assert(forall|j: int| 0 <= j < evts.len() ==> 0 <= (#[trigger] evts[j]).idx < segs.len());
    lemma_sweep_rec_translate(o, segs, st0, evts, 0, v, stf1, stf2);
    lemma_finalize_translate(stf1.acc, v);
    assert(r2 == translate_segs(r1, v));
}

} // verus!
