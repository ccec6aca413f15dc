//! The sweep's active set: the segments currently crossed by the sweep
//! ray, held as a list of input indices ordered nearest-first by
//! [`crate::distance::SegmentByDistance`].  Insertion skips a segment
//! that compares equal to one already present; removal takes out the
//! first segment that compares equal.  Every operation fails when it
//! would need a comparison that `cmp_defined` rules out.

use core::cmp::Ordering;

use vstd::prelude::*;

use crate::distance::{cmp_defined, cmp_spec, SegmentByDistance};
use crate::point::{GPoint, Point};
use crate::segment::{segs_view, GSeg, Segment};

verus! {

/// The model of an index list.
pub open spec fn idxs_view(s: Seq<usize>) -> Seq<int> {
    s.map_values(|x: usize| x as int)
}

/// Ordered insertion of segment `i` into the active list `act`: before
/// the first element it is nearer than, dropped on an equal element.
pub open spec fn active_insert(q: GPoint, segs: Seq<GSeg>, act: Seq<int>, i: int) -> Option<
    Seq<int>,
>
    decreases act.len(),
{
    if act.len() == 0 {
        Some(seq![i])
    } else if !cmp_defined(q, segs[i], segs[act[0]]) {
        None
    } else {
        let c = cmp_spec(q, segs[i], segs[act[0]]);
        if c == Ordering::Less {
            Some(seq![i] + act)
        } else if c == Ordering::Equal {
            Some(act)
        } else {
            match active_insert(q, segs, act.drop_first(), i) {
                None => None,
                Some(r) => Some(seq![act[0]] + r),
            }
        }
    }
}

/// Removal of the first element of `act` that compares equal to segment
/// `i`; the list is unchanged when none does.
pub open spec fn active_remove(q: GPoint, segs: Seq<GSeg>, act: Seq<int>, i: int) -> Option<
    Seq<int>,
>
    decreases act.len(),
{
    if act.len() == 0 {
        Some(act)
    } else if !cmp_defined(q, segs[i], segs[act[0]]) {
        None
    } else if cmp_spec(q, segs[i], segs[act[0]]) == Ordering::Equal {
        Some(act.drop_first())
    } else {
        match active_remove(q, segs, act.drop_first(), i) {
            None => None,
            Some(r) => Some(seq![act[0]] + r),
        }
    }
}

/// Everything the insertion returns was present before or is the new
/// index.
pub proof fn lemma_active_insert_elems(q: GPoint, segs: Seq<GSeg>, act: Seq<int>, i: int)
    requires
        active_insert(q, segs, act, i) is Some,
    ensures
        forall|k: int|
            0 <= k < active_insert(q, segs, act, i).unwrap().len() ==> (
            #[trigger] active_insert(q, segs, act, i).unwrap()[k] == i || act.contains(
                active_insert(q, segs, act, i).unwrap()[k],
            )),
    decreases act.len(),
{
    let r = active_insert(q, segs, act, i).unwrap();
    if act.len() == 0 {
    } else {
        let c = cmp_spec(q, segs[i], segs[act[0]]);
        if c == Ordering::Less {
        } else if c == Ordering::Equal {
        } else {
            lemma_active_insert_elems(q, segs, act.drop_first(), i);
            let rr = active_insert(q, segs, act.drop_first(), i).unwrap();
            assert forall|k: int| 0 <= k < r.len() implies (#[trigger] r[k] == i || act.contains(
                r[k],
            )) by {
                if k == 0 {
                    assert(act[0] == r[0]);
                    assert(act.contains(act[0]));
                } else {
                    assert(r[k] == rr[k - 1]);
                    if rr[k - 1] != i {
                        let m = choose|m: int|
                            0 <= m < act.drop_first().len() && act.drop_first()[m] == rr[k - 1];
                        assert(act[m + 1] == rr[k - 1]);
                    }
                }
            }
        }
    }
}

/// Everything the removal returns was present before.
pub proof fn lemma_active_remove_elems(q: GPoint, segs: Seq<GSeg>, act: Seq<int>, i: int)
    requires
        active_remove(q, segs, act, i) is Some,
    ensures
        forall|k: int|
            0 <= k < active_remove(q, segs, act, i).unwrap().len() ==> act.contains(
                #[trigger] active_remove(q, segs, act, i).unwrap()[k],
            ),
    decreases act.len(),
{
    let r = active_remove(q, segs, act, i).unwrap();
    if act.len() == 0 {
    } else if cmp_spec(q, segs[i], segs[act[0]]) == Ordering::Equal {
        assert forall|k: int| 0 <= k < r.len() implies act.contains(#[trigger] r[k]) by {
            assert(r[k] == act[k + 1]);
        }
    } else {
        lemma_active_remove_elems(q, segs, act.drop_first(), i);
        let rr = active_remove(q, segs, act.drop_first(), i).unwrap();
        assert forall|k: int| 0 <= k < r.len() implies act.contains(#[trigger] r[k]) by {
            if k == 0 {
                assert(act[0] == r[0]);
            } else {
                assert(r[k] == rr[k - 1]);
                let m = choose|m: int|
                    0 <= m < act.drop_first().len() && act.drop_first()[m] == rr[k - 1];
                assert(act[m + 1] == rr[k - 1]);
            }
        }
    }
}

/// Inserts segment `i` into the active list, keeping nearest-first
/// order; a segment comparing equal to a present one is not added.
#[verifier::loop_isolation(false)]
pub(crate) fn insert_active(
    origin: &Point,
    segments: &[Segment],
    active: &mut Vec<usize>,
    i: usize,
)
    requires
        origin.wf(),
        forall|k: int| 0 <= k < segments@.len() ==> (#[trigger] segments@[k]).wf(),
        i < segments@.len(),
        forall|k: int| 0 <= k < old(active)@.len() ==> (#[trigger] old(active)@[k]) < segments@.len(),
        active_insert(origin@, segs_view(segments@), idxs_view(old(active)@), i as int) is Some,
    ensures
        idxs_view(final(active)@) == active_insert(
            origin@,
            segs_view(segments@),
            idxs_view(old(active)@),
            i as int,
        ).unwrap(),
        forall|k: int| 0 <= k < final(active)@.len() ==> (#[trigger] final(active)@[k]) < segments@.len(),
{
    let ghost q = origin@;
    let ghost sv = segs_view(segments@);
    let ghost av = idxs_view(old(active)@);
    let ghost goal = active_insert(q, sv, av, i as int).unwrap();
    let sd_new = SegmentByDistance::new(*origin, segments[i]);
    let mut j: usize = 0;
    proof {
        assert(av.skip(0) =~= av);
        assert(av.take(0) + active_insert(q, sv, av.skip(0), i as int).unwrap() =~= goal);
    }
    loop
        invariant
            origin.wf(),
            q == origin@,
            sv == segs_view(segments@),
            av == idxs_view(active@),
            i < segments@.len(),
            forall|k: int| 0 <= k < segments@.len() ==> (#[trigger] segments@[k]).wf(),
            forall|k: int| 0 <= k < active@.len() ==> (#[trigger] active@[k]) < segments@.len(),
            sd_new.origin == *origin,
            sd_new.segment == segments@[i as int],
            j <= active.len(),
            active_insert(q, sv, av.skip(j as int), i as int) is Some,
            goal == av.take(j as int) + active_insert(q, sv, av.skip(j as int), i as int).unwrap(),
        decreases active.len() - j,
    {
        if j >= active.len() {
            proof {
                assert(av.skip(j as int) =~= Seq::<int>::empty());
                assert(goal =~= av + seq![i as int]);
            }
            active.push(i);
            proof {
                assert(idxs_view(active@) =~= av + seq![i as int]);
            }
            return ;
        }
        let sd_head = SegmentByDistance::new(*origin, segments[active[j]]);
        proof {
            assert(av.skip(j as int)[0] == av[j as int]);
            assert(sd_head.segment@ == sv[av[j as int]]);
            assert(sd_new.segment@ == sv[i as int]);
        }
        match sd_new.cmp(&sd_head) {
            Ordering::Less => {
                proof {
                    assert(goal =~= av.take(j as int) + seq![i as int] + av.skip(j as int));
                }
                let ghost before_ins = active@;
                active.insert(j, i);
                proof {
                    assert forall|k: int| 0 <= k < active@.len() implies (#[trigger] active@[k])
                        < segments@.len() by {
                        if k < j {
                            assert(active@[k] == before_ins[k]);
                        } else if k > j {
                            assert(active@[k] == before_ins[k - 1]);
                        }
                    }
                    assert forall|k: int| 0 <= k < active@.len() implies #[trigger] idxs_view(
                        active@,
                    )[k] == goal[k] by {
                        if k < j {
                            assert(active@[k] == before_ins[k]);
                        } else if k == j {
                            assert(active@[k] == i);
                        } else {
                            assert(active@[k] == before_ins[k - 1]);
                        }
                    }
                    assert(idxs_view(active@) =~= goal);
                }
                return ;
            },
            Ordering::Equal => {
                proof {
                    assert(goal =~= av.take(j as int) + av.skip(j as int));
                    assert(goal =~= av);
                }
                return ;
            },
            Ordering::Greater => {
                proof {
                    let rest = active_insert(q, sv, av.skip(j as int).drop_first(), i as int);
                    assert(av.skip(j as int).drop_first() =~= av.skip(j + 1));
                    assert(av.take(j as int) + (seq![av[j as int]] + rest.unwrap()) =~= av.take(
                        j + 1,
                    ) + rest.unwrap());
                }
                j = j + 1;
            },
        }
    }
}

/// Removes the first active segment that compares equal to segment `i`;
/// absent segments leave the list unchanged.
#[verifier::loop_isolation(false)]
pub(crate) fn remove_active(
    origin: &Point,
    segments: &[Segment],
    active: &mut Vec<usize>,
    i: usize,
)
    requires
        origin.wf(),
        forall|k: int| 0 <= k < segments@.len() ==> (#[trigger] segments@[k]).wf(),
        i < segments@.len(),
        forall|k: int| 0 <= k < old(active)@.len() ==> (#[trigger] old(active)@[k]) < segments@.len(),
        active_remove(origin@, segs_view(segments@), idxs_view(old(active)@), i as int) is Some,
    ensures
        idxs_view(final(active)@) == active_remove(
            origin@,
            segs_view(segments@),
            idxs_view(old(active)@),
            i as int,
        ).unwrap(),
        forall|k: int| 0 <= k < final(active)@.len() ==> (#[trigger] final(active)@[k]) < segments@.len(),
{
    let ghost q = origin@;
    let ghost sv = segs_view(segments@);
    let ghost av = idxs_view(old(active)@);
    let ghost goal = active_remove(q, sv, av, i as int).unwrap();
    let sd_new = SegmentByDistance::new(*origin, segments[i]);
    let mut j: usize = 0;
    proof {
        assert(av.skip(0) =~= av);
        assert(av.take(0) + active_remove(q, sv, av.skip(0), i as int).unwrap() =~= goal);
    }
    loop
        invariant
            origin.wf(),
            q == origin@,
            sv == segs_view(segments@),
            av == idxs_view(active@),
            i < segments@.len(),
            forall|k: int| 0 <= k < segments@.len() ==> (#[trigger] segments@[k]).wf(),
            forall|k: int| 0 <= k < active@.len() ==> (#[trigger] active@[k]) < segments@.len(),
            sd_new.origin == *origin,
            sd_new.segment == segments@[i as int],
            j <= active.len(),
            active_remove(q, sv, av.skip(j as int), i as int) is Some,
            goal == av.take(j as int) + active_remove(q, sv, av.skip(j as int), i as int).unwrap(),
        decreases active.len() - j,
    {
        if j >= active.len() {
            proof {
                assert(av.skip(j as int) =~= Seq::<int>::empty());
                assert(goal =~= av);
            }
            return ;
        }
        let sd_head = SegmentByDistance::new(*origin, segments[active[j]]);
        proof {
            assert(av.skip(j as int)[0] == av[j as int]);
            assert(sd_head.segment@ == sv[av[j as int]]);
            assert(sd_new.segment@ == sv[i as int]);
        }
        match sd_new.cmp(&sd_head) {
            Ordering::Equal => {
                proof {
                    assert(av.skip(j as int).drop_first() =~= av.skip(j + 1));
                    assert(goal =~= av.take(j as int) + av.skip(j + 1));
                }
                let ghost before_rm = active@;
                active.remove(j);
                proof {
                    assert forall|k: int| 0 <= k < active@.len() implies (#[trigger] active@[k])
                        < segments@.len() by {
                        if k < j {
                            assert(active@[k] == before_rm[k]);
                        } else {
                            assert(active@[k] == before_rm[k + 1]);
                        }
                    }
                    assert forall|k: int| 0 <= k < active@.len() implies #[trigger] idxs_view(
                        active@,
                    )[k] == goal[k] by {
                        if k < j {
                            assert(active@[k] == before_rm[k]);
                        } else {
                            assert(active@[k] == before_rm[k + 1]);
                        }
                    }
                    assert(idxs_view(active@) =~= goal);
                }
                return ;
            },
            _ => {
                proof {
                    let rest = active_remove(q, sv, av.skip(j as int).drop_first(), i as int);
                    assert(av.skip(j as int).drop_first() =~= av.skip(j + 1));
                    assert(av.take(j as int) + (seq![av[j as int]] + rest.unwrap()) =~= av.take(
                        j + 1,
                    ) + rest.unwrap());
                }
                j = j + 1;
            },
        }
    }
}

} // verus!
