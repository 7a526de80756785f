use vstd::prelude::*;

verus! {

/// The selection state of an object the user can click on.
///
/// `is_targeted` marks the object the camera follows; `new_target` marks the
/// object picked by the latest click, until the frame after the click has
/// cleared the older selections.
#[derive(Clone, Copy, Debug, PartialEq, Eq, Structural)]
pub struct Targetable {
    pub new_target: bool,
    pub is_targeted: bool,
}

impl Default for Targetable {
    fn default() -> (t: Self)
        ensures
            !t.new_target,
            !t.is_targeted,
    {
        Targetable { new_target: false, is_targeted: false }
    }
}

/// What one object does during a frame, given the pending-reset flag as it
/// stands when the object's turn comes, whether the left button was pressed
/// this frame and whether the cursor lies on the object. Returns the
/// object's new state and the new pending-reset flag.
pub open spec fn target_step(t: Targetable, reset: bool, pressed: bool, hit: bool) -> (
    Targetable,
    bool,
) {
    if reset {
        if t.new_target {
            (Targetable { new_target: false, is_targeted: t.is_targeted }, false)
        } else {
            (Targetable { new_target: false, is_targeted: false }, true)
        }
    } else if pressed && hit {
        (Targetable { new_target: true, is_targeted: true }, true)
    } else {
        (t, false)
    }
}

/// One frame of the selection handler: every object takes its step in turn,
/// the pending-reset flag carried from one object to the next.
pub open spec fn target_frame(
    ts: Seq<Targetable>,
    reset: bool,
    pressed: bool,
    hits: Seq<bool>,
) -> (Seq<Targetable>, bool)
    decreases ts.len(),
{
    if ts.len() == 0 {
        (ts, reset)
    } else {
        let (before, r) = target_frame(ts.drop_last(), reset, pressed, hits.drop_last());
        let (t, r2) = target_step(ts.last(), r, pressed, hits.last());
        (before.push(t), r2)
    }
}

fn step(t: Targetable, reset: bool, pressed: bool, hit: bool) -> (res: (Targetable, bool))
    ensures
        res == target_step(t, reset, pressed, hit),
{
    if !t.new_target && reset {
        (Targetable { new_target: t.new_target, is_targeted: false }, reset)
    } else if t.new_target && reset {
        (Targetable { new_target: false, is_targeted: t.is_targeted }, false)
    } else if pressed && hit {
        (Targetable { new_target: true, is_targeted: true }, true)
    } else {
        (t, reset)
    }
}

/// Runs one frame of click selection over all clickable objects, in the
/// order the world lists them. `collisions[i]` tells whether the cursor
/// lies on object `i`; it is consulted only when the button was pressed.
pub fn target_handler(
    targetables: &mut Vec<Targetable>,
    reset_targets: &mut bool,
    just_pressed: bool,
    collisions: &Vec<bool>,
)
    requires
        old(targetables).len() == collisions.len(),
    ensures
        (final(targetables)@, *final(reset_targets)) == target_frame(
            old(targetables)@,
            *old(reset_targets),
            just_pressed,
            collisions@,
        ),
{
    let ghost ts0 = targetables@;
    let ghost r0 = *reset_targets;
    let n = targetables.len();
    let mut i: usize = 0;
    while i < n
        invariant
            n == targetables.len(),
            n == collisions.len(),
            n == ts0.len(),
            i <= n,
            forall|j: int| i <= j < n ==> targetables@[j] == ts0[j],
            target_frame(ts0.take(i as int), r0, just_pressed, collisions@.take(i as int)) == (
                targetables@.take(i as int),
                *reset_targets,
            ),
        decreases n - i,
    {
        let t = targetables[i];
        let (nt, nr) = step(t, *reset_targets, just_pressed, collisions[i]);
        let ghost before = targetables@;
        targetables.set(i, nt);
        *reset_targets = nr;
        proof {
            assert(ts0.take(i + 1).drop_last() =~= ts0.take(i as int));
            assert(collisions@.take(i + 1).drop_last() =~= collisions@.take(i as int));
            assert(targetables@.take(i + 1) =~= before.take(i as int).push(nt));
        }
        i += 1;
    }
    proof {
        assert(ts0.take(n as int) =~= ts0);
        assert(collisions@.take(n as int) =~= collisions@);
        assert(targetables@.take(n as int) =~= targetables@);
    }
}


/// The position of the first `true` in `s`, if there is one.
pub open spec fn first_marked_index(s: Seq<bool>) -> Option<int>
    decreases s.len(),
{
    if s.len() == 0 {
        None
    } else {
        match first_marked_index(s.drop_last()) {
            Some(i) => Some(i),
            None => if s.last() {
                Some(s.len() - 1)
            } else {
                None
            },
        }
    }
}

/// The object the click of this frame lands on first, if the button was
/// pressed and the cursor lies on some object.
pub open spec fn first_hit(pressed: bool, hits: Seq<bool>) -> Option<int> {
    if pressed {
        first_marked_index(hits)
    } else {
        None
    }
}

/// No pick is pending and at most one object is selected.
pub open spec fn is_settled(ts: Seq<Targetable>) -> bool {
    &&& forall|q: int| 0 <= q < ts.len() ==> !#[trigger] ts[q].new_target
    &&& forall|a: int, b: int|
        0 <= a < ts.len() && 0 <= b < ts.len() && #[trigger] ts[a].is_targeted
            && #[trigger] ts[b].is_targeted ==> a == b
}

/// Object `p` holds the pending pick, no other object does, and no object
/// after `p` is selected.
pub open spec fn picked_at(ts: Seq<Targetable>, p: int) -> bool {
    &&& 0 <= p < ts.len()
    &&& ts[p].new_target
    &&& forall|q: int| 0 <= q < ts.len() && q != p ==> !#[trigger] ts[q].new_target
    &&& forall|q: int| 0 <= q < ts.len() && #[trigger] ts[q].is_targeted ==> q <= p
}

/// The states the selection handler keeps: a pending reset goes with exactly
/// one pending pick, and without a pending reset the selection is settled.
pub open spec fn selection_consistent(ts: Seq<Targetable>, reset: bool) -> bool {
    if reset {
        exists|p: int| picked_at(ts, p)
    } else {
        is_settled(ts)
    }
}

proof fn lemma_frame_len(ts: Seq<Targetable>, reset: bool, pressed: bool, hits: Seq<bool>)
    ensures
        target_frame(ts, reset, pressed, hits).0.len() == ts.len(),
    decreases ts.len(),
{
    if ts.len() > 0 {
        lemma_frame_len(ts.drop_last(), reset, pressed, hits.drop_last());
    }
}

/// A frame over two runs of objects is the frame over the first run followed
/// by the frame over the second, which starts from the reset flag the first
/// one left.
proof fn lemma_frame_concat(
    a: Seq<Targetable>,
    b: Seq<Targetable>,
    reset: bool,
    pressed: bool,
    ha: Seq<bool>,
    hb: Seq<bool>,
)
    requires
        ha.len() == a.len(),
        hb.len() == b.len(),
    ensures
        ({
            let fa = target_frame(a, reset, pressed, ha);
            let fb = target_frame(b, fa.1, pressed, hb);
            target_frame(a + b, reset, pressed, ha + hb) == (fa.0 + fb.0, fb.1)
        }),
    decreases b.len(),
{
    if b.len() == 0 {
        assert(a + b =~= a);
        assert(ha + hb =~= ha);
        let fa = target_frame(a, reset, pressed, ha);
        assert(fa.0 + target_frame(b, fa.1, pressed, hb).0 =~= fa.0);
    } else {
        lemma_frame_concat(a, b.drop_last(), reset, pressed, ha, hb.drop_last());
        assert((a + b).drop_last() =~= a + b.drop_last());
        assert((ha + hb).drop_last() =~= ha + hb.drop_last());
        let fa = target_frame(a, reset, pressed, ha);
        let fbp = target_frame(b.drop_last(), fa.1, pressed, hb.drop_last());
        let (t, r2) = target_step(b.last(), fbp.1, pressed, hb.last());
        assert(fa.0 + fbp.0.push(t) =~= (fa.0 + fbp.0).push(t));
    }
}

/// While a reset is pending and no object holds a pick, every object is
/// deselected and the reset stays pending.
proof fn lemma_frame_clears(ts: Seq<Targetable>, pressed: bool, hits: Seq<bool>)
    requires
        hits.len() == ts.len(),
        forall|q: int| 0 <= q < ts.len() ==> !#[trigger] ts[q].new_target,
    ensures
        ({
            let (out, r) = target_frame(ts, true, pressed, hits);
            &&& r
            &&& out.len() == ts.len()
            &&& forall|j: int|
                0 <= j < ts.len() ==> #[trigger] out[j] == (Targetable {
                    new_target: false,
                    is_targeted: false,
                })
        }),
    decreases ts.len(),
{
    lemma_frame_len(ts, true, pressed, hits);
    if ts.len() > 0 {
        lemma_frame_clears(ts.drop_last(), pressed, hits.drop_last());
        assert(!ts[ts.len() - 1].new_target);
        let (before, r) = target_frame(ts.drop_last(), true, pressed, hits.drop_last());
        let (out, r2) = target_frame(ts, true, pressed, hits);
        assert forall|j: int| 0 <= j < ts.len() - 1 implies #[trigger] out[j] == before[j] by {}
    }
}

/// From a settled selection, a frame leaves every object as it was when the
/// click lands on nothing; otherwise the first object under the cursor
/// becomes selected and holds the pick, the objects before it keep their
/// state, those after it are deselected, and a reset becomes pending.
pub proof fn lemma_click_picks_first_hit(
    ts: Seq<Targetable>,
    pressed: bool,
    hits: Seq<bool>,
)
    requires
        hits.len() == ts.len(),
        forall|q: int| 0 <= q < ts.len() ==> !#[trigger] ts[q].new_target,
    ensures
        ({
            let (out, r) = target_frame(ts, false, pressed, hits);
            &&& out.len() == ts.len()
            &&& match first_hit(pressed, hits) {
                None => out == ts && !r,
                Some(h) => {
                    &&& 0 <= h < ts.len()
                    &&& r
                    &&& out[h] == (Targetable { new_target: true, is_targeted: true })
                    &&& forall|j: int| 0 <= j < h ==> #[trigger] out[j] == ts[j]
                    &&& forall|j: int|
                        h < j < ts.len() ==> #[trigger] out[j] == (Targetable {
                            new_target: false,
                            is_targeted: false,
                        })
                },
            }
        }),
    decreases ts.len(),
{
    lemma_frame_len(ts, false, pressed, hits);
    if ts.len() == 0 {
        if pressed {
            assert(first_marked_index(hits) is None);
        }
    } else {
        let tsp = ts.drop_last();
        let hp = hits.drop_last();
        lemma_click_picks_first_hit(tsp, pressed, hp);
        let (before, r) = target_frame(tsp, false, pressed, hp);
        let (out, r2) = target_frame(ts, false, pressed, hits);
        assert forall|j: int| 0 <= j < ts.len() - 1 implies #[trigger] out[j] == before[j] by {}
        assert(!ts[ts.len() - 1].new_target);
        match first_hit(pressed, hp) {
            None => {
                assert(before =~= tsp);
                if pressed && hits.last() {
                    assert(first_hit(pressed, hits) == Some(ts.len() - 1));
                } else {
                    assert(first_hit(pressed, hits) is None);
                    assert(out =~= ts);
                }
            },
            Some(h) => {
                assert(first_hit(pressed, hits) == Some(h));
            },
        }
    }
}

/// The selection handler keeps its states consistent: from a consistent
/// state, any frame, with or without a click, ends in a consistent state.
pub proof fn lemma_frame_keeps_consistency(
    ts: Seq<Targetable>,
    reset: bool,
    pressed: bool,
    hits: Seq<bool>,
)
    requires
        hits.len() == ts.len(),
        selection_consistent(ts, reset),
    ensures
        ({
            let (out, r) = target_frame(ts, reset, pressed, hits);
            selection_consistent(out, r)
        }),
{
    lemma_frame_outcome(ts, reset, pressed, hits);
}

/// A frame without a click always ends settled: no reset pending, no pick
/// pending, and at most one object selected.
pub proof fn lemma_frame_without_click_settles(ts: Seq<Targetable>, reset: bool, hits: Seq<bool>)
    requires
        hits.len() == ts.len(),
        selection_consistent(ts, reset),
    ensures
        ({
            let (out, r) = target_frame(ts, reset, false, hits);
            !r && is_settled(out)
        }),
{
    lemma_frame_outcome(ts, reset, false, hits);
}

proof fn lemma_settled_outcome(ts: Seq<Targetable>, pressed: bool, hits: Seq<bool>)
    requires
        hits.len() == ts.len(),
        forall|q: int| 0 <= q < ts.len() ==> !#[trigger] ts[q].new_target,
        forall|q: int| 0 <= q < ts.len() ==> !#[trigger] ts[q].is_targeted,
    ensures
        ({
            let (out, r) = target_frame(ts, false, pressed, hits);
            &&& out.len() == ts.len()
            &&& r ==> exists|p: int| picked_at(out, p)
            &&& !r ==> (forall|q: int| 0 <= q < out.len() ==> !#[trigger] out[q].new_target)
                && (forall|q: int| 0 <= q < out.len() ==> !#[trigger] out[q].is_targeted)
            &&& !pressed ==> !r
        }),
{
    lemma_click_picks_first_hit(ts, pressed, hits);
    let (out, r) = target_frame(ts, false, pressed, hits);
    if let Some(h) = first_hit(pressed, hits) {
        assert(picked_at(out, h));
    }
}

proof fn lemma_frame_outcome(ts: Seq<Targetable>, reset: bool, pressed: bool, hits: Seq<bool>)
    requires
        hits.len() == ts.len(),
        selection_consistent(ts, reset),
    ensures
        ({
            let (out, r) = target_frame(ts, reset, pressed, hits);
            &&& selection_consistent(out, r)
            &&& !pressed ==> !r && is_settled(out)
        }),
{
    let (out, r) = target_frame(ts, reset, pressed, hits);
    if !reset {
        lemma_click_picks_first_hit(ts, pressed, hits);
        if let Some(h) = first_hit(pressed, hits) {
            assert(picked_at(out, h));
        }
    } else {
        let p = choose|p: int| picked_at(ts, p);
        let a = ts.take(p + 1);
        let b = ts.skip(p + 1);
        let ha = hits.take(p + 1);
        let hb = hits.skip(p + 1);
        assert(a + b =~= ts);
        assert(ha + hb =~= hits);
        lemma_frame_concat(a, b, true, pressed, ha, hb);
        // The run up to and including the picked object.
        lemma_frame_clears(a.drop_last(), pressed, ha.drop_last());
        lemma_frame_len(a, true, pressed, ha);
        let (oa, ra) = target_frame(a, true, pressed, ha);
        let (oap, rap) = target_frame(a.drop_last(), true, pressed, ha.drop_last());
        assert(a.last() == ts[p]);
        assert(!ra);
        assert forall|j: int| 0 <= j < p implies #[trigger] oa[j] == (Targetable {
            new_target: false,
            is_targeted: false,
        }) by {
            assert(oa[j] == oap[j]);
        }
        assert(oa[p] == (Targetable { new_target: false, is_targeted: ts[p].is_targeted }));
        // The run after it starts from no pending reset, with nothing picked or selected.
        assert forall|q: int| 0 <= q < b.len() implies !#[trigger] b[q].new_target
            && !b[q].is_targeted by {
            assert(b[q] == ts[p + 1 + q]);
        }
        lemma_settled_outcome(b, pressed, hb);
        lemma_click_picks_first_hit(b, pressed, hb);
        let (ob, rb) = target_frame(b, false, pressed, hb);
        assert(out =~= oa + ob);
        assert(r == rb);
        assert forall|j: int| 0 <= j < ob.len() implies #[trigger] out[p + 1 + j] == ob[j] by {}
        assert forall|j: int| 0 <= j <= p implies #[trigger] out[j] == oa[j] by {}
        if rb {
            let h = choose|h: int| picked_at(ob, h);
            assert(picked_at(out, p + 1 + h)) by {
                assert forall|q: int| 0 <= q < out.len() && q != p + 1 + h implies !#[trigger] out[
                    q
                ].new_target by {
                    if q > p {
                        assert(out[q] == ob[q - p - 1]);
                    }
                }
                assert forall|q: int| 0 <= q < out.len() && #[trigger] out[q].is_targeted implies q
                    <= p + 1 + h by {
                    if q > p {
                        assert(out[q] == ob[q - p - 1]);
                    }
                }
            }
        } else {
            assert forall|q: int| 0 <= q < out.len() implies !#[trigger] out[q].new_target by {
                if q > p {
                    assert(out[q] == ob[q - p - 1]);
                }
            }
            assert forall|x: int, y: int|
                0 <= x < out.len() && 0 <= y < out.len() && #[trigger] out[x].is_targeted
                    && #[trigger] out[y].is_targeted implies x == y by {
                if x > p {
                    assert(out[x] == ob[x - p - 1]);
                }
                if y > p {
                    assert(out[y] == ob[y - p - 1]);
                }
            }
        }
    }
}

/// Without a click, a frame never selects an object nor gives it the pick:
/// it can only clear those flags.
pub proof fn lemma_no_click_no_new_selection(
    ts: Seq<Targetable>,
    reset: bool,
    hits: Seq<bool>,
)
    requires
        hits.len() == ts.len(),
    ensures
        ({
            let (out, r) = target_frame(ts, reset, false, hits);
            &&& out.len() == ts.len()
            &&& forall|j: int|
                0 <= j < ts.len() ==> (#[trigger] out[j].is_targeted ==> ts[j].is_targeted) && (
                out[j].new_target ==> ts[j].new_target)
        }),
    decreases ts.len(),
{
    lemma_frame_len(ts, reset, false, hits);
    if ts.len() > 0 {
        lemma_no_click_no_new_selection(ts.drop_last(), reset, hits.drop_last());
        let (before, r) = target_frame(ts.drop_last(), reset, false, hits.drop_last());
        let (out, r2) = target_frame(ts, reset, false, hits);
        assert forall|j: int| 0 <= j < ts.len() implies (#[trigger] out[j].is_targeted
            ==> ts[j].is_targeted) && (out[j].new_target ==> ts[j].new_target) by {
            if j < ts.len() - 1 {
                assert(out[j] == before[j]);
                assert(ts.drop_last()[j] == ts[j]);
            }
        }
    }
}

/// Freshly created objects, with no reset pending, form a consistent state.
pub proof fn lemma_defaults_consistent(ts: Seq<Targetable>)
    requires
        forall|q: int| 0 <= q < ts.len() ==> !#[trigger] ts[q].new_target && !ts[q].is_targeted,
    ensures
        selection_consistent(ts, false),
{
    assert forall|q: int| 0 <= q < ts.len() implies !#[trigger] ts[q].is_targeted by {
        assert(!ts[q].new_target);
    }
}

/// A frame without a click, after object `p` took the pick: the objects
/// before it are deselected, it keeps its selection and gives up the pick,
/// and the objects after it are left as they were.
proof fn lemma_quiet_frame_after_pick(ts: Seq<Targetable>, p: int, hits: Seq<bool>)
    requires
        hits.len() == ts.len(),
        picked_at(ts, p),
    ensures
        ({
            let (out, r) = target_frame(ts, true, false, hits);
            &&& !r
            &&& out.len() == ts.len()
            &&& forall|j: int|
                0 <= j < p ==> #[trigger] out[j] == (Targetable {
                    new_target: false,
                    is_targeted: false,
                })
            &&& out[p] == (Targetable { new_target: false, is_targeted: ts[p].is_targeted })
            &&& forall|j: int| p < j < ts.len() ==> #[trigger] out[j] == ts[j]
        }),
{
    let (out, r) = target_frame(ts, true, false, hits);
    let a = ts.take(p + 1);
    let b = ts.skip(p + 1);
    let ha = hits.take(p + 1);
    let hb = hits.skip(p + 1);
    assert(a + b =~= ts);
    assert(ha + hb =~= hits);
    lemma_frame_concat(a, b, true, false, ha, hb);
    lemma_frame_clears(a.drop_last(), false, ha.drop_last());
    lemma_frame_len(a, true, false, ha);
    let (oa, ra) = target_frame(a, true, false, ha);
    let (oap, rap) = target_frame(a.drop_last(), true, false, ha.drop_last());
    assert(a.last() == ts[p]);
    assert(!ra);
    assert forall|j: int| 0 <= j < p implies #[trigger] oa[j] == (Targetable {
        new_target: false,
        is_targeted: false,
    }) by {
        assert(oa[j] == oap[j]);
    }
    assert forall|q: int| 0 <= q < b.len() implies !#[trigger] b[q].new_target by {
        assert(b[q] == ts[p + 1 + q]);
    }
    lemma_click_picks_first_hit(b, false, hb);
    let (ob, rb) = target_frame(b, false, false, hb);
    assert(ob == b);
    assert(out =~= oa + ob);
    assert forall|j: int| 0 <= j < p implies #[trigger] out[j] == (Targetable {
        new_target: false,
        is_targeted: false,
    }) by {
        assert(out[j] == oa[j]);
    }
    assert(out[p] == oa[p]);
    assert forall|j: int| p < j < ts.len() implies #[trigger] out[j] == ts[j] by {
        assert(out[j] == ob[j - p - 1]);
        assert(b[j - p - 1] == ts[j]);
    }
}

/// From a settled selection, a click that lands on some object followed by
/// a frame without a click leaves exactly that object selected (the first
/// one under the cursor), with no pick and no reset pending.
pub proof fn lemma_click_then_quiet_frame_selects_hit(
    ts: Seq<Targetable>,
    hits: Seq<bool>,
    quiet_hits: Seq<bool>,
    h: int,
)
    requires
        hits.len() == ts.len(),
        quiet_hits.len() == ts.len(),
        is_settled(ts),
        first_hit(true, hits) == Some(h),
    ensures
        ({
            let (out1, r1) = target_frame(ts, false, true, hits);
            let (out2, r2) = target_frame(out1, r1, false, quiet_hits);
            &&& !r2
            &&& out2.len() == ts.len()
            &&& forall|j: int|
                0 <= j < ts.len() ==> #[trigger] out2[j] == (Targetable {
                    new_target: false,
                    is_targeted: j == h,
                })
        }),
{
    lemma_click_picks_first_hit(ts, true, hits);
    let (out1, r1) = target_frame(ts, false, true, hits);
    assert(r1);
    assert(picked_at(out1, h)) by {
        assert forall|q: int| 0 <= q < out1.len() && q != h implies !#[trigger] out1[
            q
        ].new_target by {
            if q < h {
                assert(out1[q] == ts[q]);
            }
        }
        assert forall|q: int| 0 <= q < out1.len() && #[trigger] out1[q].is_targeted implies q
            <= h by {
            if q > h {
                assert(out1[q] == (Targetable { new_target: false, is_targeted: false }));
            }
        }
    }
    lemma_quiet_frame_after_pick(out1, h, quiet_hits);
    let (out2, r2) = target_frame(out1, r1, false, quiet_hits);
    assert forall|j: int| 0 <= j < ts.len() implies #[trigger] out2[j] == (Targetable {
        new_target: false,
        is_targeted: j == h,
    }) by {
        if j > h {
            assert(out2[j] == out1[j]);
            assert(out1[j] == (Targetable { new_target: false, is_targeted: false }));
        }
    }
}

} // verus!
