use std::collections::HashMap;
use vstd::prelude::*;

use crate::placement_depth::{
    lemma_complete_placement_ranked,
    lemma_complete_within_map_size,
    lemma_ranked_placement_complete,
    ranks_reached,
};
use crate::selection::opt_index;

verus! {

broadcast use vstd::std_specs::hash::group_hash_axioms;

/// What the library keeps of a planet of the star system: the planets that
/// orbit it, whether it is the sun, and whether it carries the
/// reference-frame marker.
pub struct PlanetNode {
    pub children: Vec<u64>,
    pub is_sun: bool,
    pub is_reference: bool,
}

/// The planets of the star system, keyed by entity id.
pub type PlanetHashMap = HashMap<u64, PlanetNode>;

/// A planet as the world lists it when the star system is first recorded.
pub struct ShadowPlanet {
    pub entity: u64,
    pub children: Vec<u64>,
    pub is_sun: bool,
    pub is_reference: bool,
}

/// One placement step: `node` is placed relative to the node placed at step
/// `parent`, or relative to the caller's parent when `parent` is `None`.
#[derive(Clone, Copy, Debug, PartialEq, Eq, Structural)]
pub struct Visit {
    pub node: u64,
    pub parent: Option<usize>,
}

/// The node recorded for a planet of the world.
pub open spec fn node_of(sp: ShadowPlanet) -> PlanetNode {
    PlanetNode { children: sp.children, is_sun: sp.is_sun, is_reference: sp.is_reference }
}

/// The star system recorded from the planets in the order the world lists
/// them; a later entry for the same entity replaces an earlier one.
pub open spec fn recorded_map(planets: Seq<ShadowPlanet>) -> Map<u64, PlanetNode>
    decreases planets.len(),
{
    if planets.len() == 0 {
        Map::empty()
    } else {
        recorded_map(planets.drop_last()).insert(planets.last().entity, node_of(planets.last()))
    }
}

/// The last sun in the list, or `prior` when the list holds no sun.
pub open spec fn last_sun(planets: Seq<ShadowPlanet>, prior: Option<u64>) -> Option<u64>
    decreases planets.len(),
{
    if planets.len() == 0 {
        prior
    } else if planets.last().is_sun {
        Some(planets.last().entity)
    } else {
        last_sun(planets.drop_last(), prior)
    }
}

/// Records the star system the first time a prediction needs it: when the
/// map is empty it is filled from `planets` and the sun key is set to the
/// last sun listed (or left as it was when none is listed); once the map
/// holds anything, map and sun key are left untouched. Returns whether the
/// planets were recorded.
pub fn fill_planet_map(
    map: &mut PlanetHashMap,
    sun_key: &mut Option<u64>,
    planets: Vec<ShadowPlanet>,
) -> (recorded: bool)
    ensures
        recorded == (old(map)@.len() == 0),
        old(map)@.len() == 0 ==> final(map)@ == recorded_map(planets@) && *final(sun_key)
            == last_sun(planets@, *old(sun_key)),
        old(map)@.len() != 0 ==> final(map)@ == old(map)@ && *final(sun_key) == *old(sun_key),
        recorded ==> forall|k: u64|
            #[trigger] final(map)@.contains_key(k) <==> exists|i: int|
                0 <= i < planets.len() && #[trigger] planets@[i].entity == k,
        recorded ==> forall|i: int| #[trigger]
            listed_last(planets@, i) ==> records_planet(final(map)@, planets@[i]),
        recorded && (forall|i: int| 0 <= i < planets.len() ==> !#[trigger] planets@[i].is_sun)
            ==> *final(sun_key) == *old(sun_key),
        recorded && (exists|i: int| 0 <= i < planets.len() && #[trigger] planets@[i].is_sun)
            ==> exists|j: int| #[trigger]
            last_sun_at(planets@, j) && *final(sun_key) == Some(planets@[j].entity),
{
    if map.len() != 0 {
        return false;
    }
    let ghost ps = planets@;
    let ghost prior = *sun_key;
    assert(map@ =~= recorded_map(ps.take(0)));
    for sp in it: planets
        invariant
            it.seq() == ps,
            map@ == recorded_map(ps.take(it.index() as int)),
            *sun_key == last_sun(ps.take(it.index() as int), prior),
    {
        let ghost k = it.index() as int;
        proof {
            assert(ps.take(k + 1).drop_last() =~= ps.take(k));
        }
        if sp.is_sun {
            *sun_key = Some(sp.entity);
        }
        let node = PlanetNode {
            children: sp.children,
            is_sun: sp.is_sun,
            is_reference: sp.is_reference,
        };
        map.insert(sp.entity, node);
    }
    proof {
        assert(ps.take(ps.len() as int) =~= ps);
        lemma_recorded_entries(ps);
        lemma_last_sun(ps, prior);
    }
    true
}

/// `planets[i]` is the last entry the list holds for its entity.
pub open spec fn listed_last(planets: Seq<ShadowPlanet>, i: int) -> bool {
    &&& 0 <= i < planets.len()
    &&& forall|j: int| i < j < planets.len() ==> #[trigger] planets[j].entity != planets[i].entity
}

/// The map holds the planet under its entity id, with its children, its sun
/// flag and its reference-frame marker as listed.
pub open spec fn records_planet(m: Map<u64, PlanetNode>, p: ShadowPlanet) -> bool {
    &&& m.contains_key(p.entity)
    &&& m[p.entity].children@ == p.children@
    &&& m[p.entity].is_sun == p.is_sun
    &&& m[p.entity].is_reference == p.is_reference
}

/// `planets[j]` is a sun and no later entry is.
pub open spec fn last_sun_at(planets: Seq<ShadowPlanet>, j: int) -> bool {
    &&& 0 <= j < planets.len()
    &&& planets[j].is_sun
    &&& forall|l: int| j < l < planets.len() ==> !#[trigger] planets[l].is_sun
}

/// The recorded star system holds exactly the listed entities, and each
/// entity as its last entry lists it: children, sun flag and reference-frame
/// marker all kept.
pub proof fn lemma_recorded_entries(planets: Seq<ShadowPlanet>)
    ensures
        forall|k: u64|
            #[trigger] recorded_map(planets).contains_key(k) <==> exists|i: int|
                0 <= i < planets.len() && #[trigger] planets[i].entity == k,
        forall|i: int| #[trigger]
            listed_last(planets, i) ==> records_planet(recorded_map(planets), planets[i]),
    decreases planets.len(),
{
    if planets.len() > 0 {
        let pre = planets.drop_last();
        let n = planets.len() - 1;
        lemma_recorded_entries(pre);
        assert forall|k: u64| #[trigger] recorded_map(planets).contains_key(k) <==> exists|i: int|
            0 <= i < planets.len() && #[trigger] planets[i].entity == k by {
            assert(recorded_map(planets) == recorded_map(pre).insert(
                planets[n].entity,
                node_of(planets[n]),
            ));
            if recorded_map(planets).contains_key(k) {
                if k == planets[n].entity {
                    assert(planets[n].entity == k);
                } else {
                    assert(recorded_map(pre).contains_key(k));
                    let i = choose|i: int| 0 <= i < pre.len() && #[trigger] pre[i].entity == k;
                    assert(pre[i] == planets[i]);
                    assert(planets[i].entity == k);
                }
            }
            if exists|i: int| 0 <= i < planets.len() && #[trigger] planets[i].entity == k {
                let i = choose|i: int| 0 <= i < planets.len() && #[trigger] planets[i].entity == k;
                if i < n {
                    assert(pre[i].entity == k);
                }
            }
        }
        assert forall|i: int| #[trigger] listed_last(planets, i) implies records_planet(
            recorded_map(planets),
            planets[i],
        ) by {
            if i < n {
                assert(planets[n].entity != planets[i].entity);
                assert(listed_last(pre, i)) by {
                    assert forall|j: int| i < j < pre.len() implies #[trigger] pre[j].entity
                        != pre[i].entity by {
                        assert(planets[j].entity != planets[i].entity);
                    }
                }
                assert(pre[i] == planets[i]);
            }
        }
    }
}

/// With no sun listed the sun key stays as it was; otherwise it names the
/// last sun listed.
pub proof fn lemma_last_sun(planets: Seq<ShadowPlanet>, prior: Option<u64>)
    ensures
        (forall|i: int| 0 <= i < planets.len() ==> !#[trigger] planets[i].is_sun) ==> last_sun(
            planets,
            prior,
        ) == prior,
        (exists|i: int| 0 <= i < planets.len() && #[trigger] planets[i].is_sun) ==> exists|j: int|
            #[trigger] last_sun_at(planets, j) && last_sun(planets, prior) == Some(
                planets[j].entity,
            ),
    decreases planets.len(),
{
    if planets.len() > 0 {
        let pre = planets.drop_last();
        let n = planets.len() - 1;
        lemma_last_sun(pre, prior);
        if planets[n].is_sun {
            assert(last_sun_at(planets, n));
        } else {
            if forall|i: int| 0 <= i < planets.len() ==> !#[trigger] planets[i].is_sun {
                assert forall|i: int| 0 <= i < pre.len() implies !#[trigger] pre[i].is_sun by {
                    assert(planets[i].is_sun == pre[i].is_sun);
                }
            }
            if exists|i: int| 0 <= i < planets.len() && #[trigger] planets[i].is_sun {
                let i = choose|i: int| 0 <= i < planets.len() && #[trigger] planets[i].is_sun;
                assert(pre[i].is_sun);
                let j = choose|j: int| #[trigger]
                    last_sun_at(pre, j) && last_sun(pre, prior) == Some(pre[j].entity);
                assert(last_sun_at(planets, j)) by {
                    assert forall|l: int| j < l < planets.len() implies !#[trigger] planets[
                        l
                    ].is_sun by {
                        if l < n {
                            assert(!pre[l].is_sun);
                        }
                    }
                }
            }
        }
    }
}

/// Whether placing the planets `kids`, each followed by everything that
/// orbits it, finds every planet it reaches in the map within `depth`
/// levels of nesting.
pub open spec fn placement_complete(m: Map<u64, PlanetNode>, kids: Seq<u64>, depth: nat) -> bool
    decreases depth, kids.len(),
{
    if kids.len() == 0 {
        true
    } else if depth == 0 {
        false
    } else {
        &&& m.contains_key(kids[0])
        &&& placement_complete(m, m[kids[0]].children@, (depth - 1) as nat)
        &&& placement_complete(m, kids.drop_first(), depth)
    }
}

/// The placement steps for the planets `kids`, in order, each followed by
/// the steps for the planets orbiting it. The first step is step `base`;
/// the planets of `kids` are placed relative to `parent`.
pub open spec fn placement(
    m: Map<u64, PlanetNode>,
    kids: Seq<u64>,
    parent: Option<usize>,
    base: int,
    depth: nat,
) -> Seq<Visit>
    decreases depth, kids.len(),
{
    if kids.len() == 0 || depth == 0 {
        Seq::empty()
    } else {
        let k = kids[0];
        let below = placement(m, m[k].children@, Some(base as usize), base + 1, (depth - 1) as nat);
        seq![Visit { node: k, parent }] + below + placement(
            m,
            kids.drop_first(),
            parent,
            base + 1 + below.len(),
            depth,
        )
    }
}

fn place_siblings(
    m: &PlanetHashMap,
    kids: &Vec<u64>,
    idx: usize,
    parent: Option<usize>,
    depth: usize,
    out: &mut Vec<Visit>,
) -> (ok: bool)
    requires
        idx <= kids.len(),
    ensures
        ok == placement_complete(m@, kids@.skip(idx as int), depth as nat),
        ok ==> final(out)@ == old(out)@ + placement(
            m@,
            kids@.skip(idx as int),
            parent,
            old(out)@.len() as int,
            depth as nat,
        ),
    decreases depth, kids.len() - idx,
{
    let ghost rest = kids@.skip(idx as int);
    if idx >= kids.len() {
        assert(rest.len() == 0);
        assert(old(out)@ + placement(m@, rest, parent, old(out)@.len() as int, depth as nat)
            =~= old(out)@);
        return true;
    }
    if depth == 0 {
        return false;
    }
    let k = kids[idx];
    assert(rest[0] == k);
    assert(rest.drop_first() =~= kids@.skip(idx + 1));
    match m.get(&k) {
        None => false,
        Some(node) => {
            let ghost out0 = out@;
            let me = out.len();
            out.push(Visit { node: k, parent });
            assert(node.children@.skip(0) =~= node.children@);
            let ok1 = place_siblings(m, &node.children, 0, Some(me), depth - 1, out);
            if !ok1 {
                return false;
            }
            let ghost out1 = out@;
            let ok2 = place_siblings(m, kids, idx + 1, parent, depth, out);
            proof {
                if ok2 {
                    let below = placement(
                        m@,
                        m@[k].children@,
                        Some(me),
                        me + 1,
                        (depth - 1) as nat,
                    );
                    assert(out1 =~= out0.push(Visit { node: k, parent }) + below);
                    assert(out@ =~= out0 + placement(
                        m@,
                        rest,
                        parent,
                        out0.len() as int,
                        depth as nat,
                    ));
                }
            }
            ok2
        },
    }
}

/// Whether the planets orbiting a parent can be placed at all: every
/// planet reached from `children` is in the map, and no planet is reached
/// again from the planets orbiting it.
pub fn placement_is_complete(children: &Vec<u64>, map: &PlanetHashMap) -> (ok: bool)
    ensures
        ok <==> exists|depth: nat| #[trigger] placement_complete(map@, children@, depth),
        ok <==> exists|r: Map<u64, nat>| ranks_reached(map@, children@, r),
{
    let mut scratch: Vec<Visit> = Vec::new();
    assert(children@.skip(0) =~= children@);
    let ok = place_siblings(map, children, 0, None, map.len(), &mut scratch);
    proof {
        if exists|d: nat| #[trigger] placement_complete(map@, children@, d) {
            let d = choose|d: nat| #[trigger] placement_complete(map@, children@, d);
            lemma_complete_within_map_size(map@, children@, d);
            lemma_complete_placement_ranked(map@, children@, d);
        }
        if exists|r: Map<u64, nat>| ranks_reached(map@, children@, r) {
            let r = choose|r: Map<u64, nat>| ranks_reached(map@, children@, r);
            lemma_ranked_placement_complete(map@, children@, r);
        }
    }
    ok
}

/// Plans how the planets orbiting a parent are placed at their absolute
/// positions: each planet of `children`, in order, is placed relative to
/// the parent, and right after it, everything that orbits it, relative to
/// it. Every planet reached must be in the map, and no planet may be
/// reached again from the planets orbiting it (`placement_is_complete`).
pub fn relative_to_absolute(children: &Vec<u64>, map: &PlanetHashMap) -> (plan: Vec<Visit>)
    requires
        exists|depth: nat| #[trigger] placement_complete(map@, children@, depth),
    ensures
        plan@ == placement(map@, children@, None, 0, map@.len()),
        forall|i: int| 0 <= i < plan.len() ==> step_well_placed(map@, children@, None, 0, plan@, i),
        placed_under(plan@, None) == children@,
        forall|q: int|
            0 <= q < plan.len() ==> placed_under(plan@, Some(q as usize))
                == map@[#[trigger] plan@[q].node].children@,
{
    let mut out: Vec<Visit> = Vec::new();
    let depth = map.len();
    assert(children@.skip(0) =~= children@);
    proof {
        let d = choose|d: nat| #[trigger] placement_complete(map@, children@, d);
        lemma_complete_within_map_size(map@, children@, d);
    }
    let ok = place_siblings(map, children, 0, None, depth, &mut out);
    assert(ok);
    // A vector holds at most `usize::MAX` items, which bounds the plan.
    let steps = out.len();
    assert(steps == out@.len());
    assert(out@ =~= placement(map@, children@, None, 0, map@.len()));
    proof {
        lemma_placement_well_ordered(map@, children@, None, 0, map@.len());
        lemma_placement_children(map@, children@, None, 0, map@.len());
    }
    out
}

/// The step whose position, as read just before that step, is reported as
/// the reference position when the planets `kids` (first step `base`) are
/// placed, starting from `acc`. `zero[i]` tells whether the position read at
/// step `i` is the origin. Each planet with the reference-frame marker takes
/// over the report; afterwards, what the planets orbiting it report takes
/// over, unless that is the origin. `None` stands for the origin.
pub open spec fn reference_of(
    m: Map<u64, PlanetNode>,
    kids: Seq<u64>,
    base: int,
    zero: Seq<bool>,
    acc: Option<int>,
    depth: nat,
) -> Option<int>
    decreases depth, kids.len(),
{
    if kids.len() == 0 || depth == 0 {
        acc
    } else {
        let k = kids[0];
        let below = placement(m, m[k].children@, Some(base as usize), base + 1, (depth - 1) as nat);
        let here = if m[k].is_reference {
            Some(base)
        } else {
            acc
        };
        let inner = reference_of(m, m[k].children@, base + 1, zero, None, (depth - 1) as nat);
        let next = match inner {
            Some(s) => if !zero[s] {
                Some(s)
            } else {
                here
            },
            None => here,
        };
        reference_of(m, kids.drop_first(), base + 1 + below.len(), zero, next, depth)
    }
}

fn resolve_siblings(
    m: &PlanetHashMap,
    kids: &Vec<u64>,
    idx: usize,
    base: usize,
    depth: usize,
    zero: &Vec<bool>,
    acc: Option<usize>,
    Ghost(parent): Ghost<Option<usize>>,
) -> (res: (Option<usize>, usize))
    requires
        idx <= kids.len(),
        placement_complete(m@, kids@.skip(idx as int), depth as nat),
        base + placement(m@, kids@.skip(idx as int), parent, base as int, depth as nat).len()
            <= zero.len(),
    ensures
        res.1 == base + placement(
            m@,
            kids@.skip(idx as int),
            parent,
            base as int,
            depth as nat,
        ).len(),
        opt_index(res.0) == reference_of(
            m@,
            kids@.skip(idx as int),
            base as int,
            zero@,
            opt_index(acc),
            depth as nat,
        ),
        res.0 == acc || (res.0 matches Some(i) && base <= i < res.1),
    decreases depth, kids.len() - idx,
{
    let ghost rest = kids@.skip(idx as int);
    if idx >= kids.len() {
        assert(rest.len() == 0);
        return (acc, base);
    }
    let k = kids[idx];
    assert(rest[0] == k);
    assert(rest.drop_first() =~= kids@.skip(idx + 1));
    match m.get(&k) {
        None => {
            assert(false);
            (acc, base)
        },
        Some(node) => {
            let here = if node.is_reference {
                Some(base)
            } else {
                acc
            };
            assert(node.children@.skip(0) =~= node.children@);
            let (inner, next_base) = resolve_siblings(
                m,
                &node.children,
                0,
                base + 1,
                depth - 1,
                zero,
                None,
                Ghost(Some(base)),
            );
            let next = match inner {
                Some(s) => if !zero[s] {
                    Some(s)
                } else {
                    here
                },
                None => here,
            };
            resolve_siblings(m, kids, idx + 1, next_base, depth, zero, next, Ghost(parent))
        },
    }
}

/// Which step's position is reported as the reference position when the
/// plan of `relative_to_absolute` for the same `children` and `map` is
/// carried out. `zero_before[i]` tells whether the position of the planet of
/// step `i`, as read just before step `i` places it, is the origin. `None`
/// stands for the origin.
pub fn reference_frame(
    children: &Vec<u64>,
    map: &PlanetHashMap,
    zero_before: &Vec<bool>,
) -> (res: Option<usize>)
    requires
        exists|depth: nat| #[trigger] placement_complete(map@, children@, depth),
        zero_before.len() == placement(map@, children@, None, 0, map@.len()).len(),
    ensures
        opt_index(res) == reference_of(map@, children@, 0, zero_before@, None, map@.len()),
{
    assert(children@.skip(0) =~= children@);
    proof {
        let d = choose|d: nat| #[trigger] placement_complete(map@, children@, d);
        lemma_complete_within_map_size(map@, children@, d);
    }
    let (res, _) = resolve_siblings(map, children, 0, 0, map.len(), zero_before, None, Ghost(None));
    res
}

/// Step `i` of `t` (whose first step is step `base`) places its planet
/// relative to the earlier step `q`, whose planet it orbits.
pub open spec fn placed_after(
    m: Map<u64, PlanetNode>,
    t: Seq<Visit>,
    base: int,
    i: int,
    q: usize,
) -> bool {
    &&& t[i].parent == Some(q)
    &&& base <= q < base + i
    &&& m[t[q - base].node].children@.contains(t[i].node)
}

/// Step `i` of `t` (whose first step is step `base`) places a planet of
/// the map either relative to `parent`, as one of `kids`, or relative to an
/// earlier step whose planet it orbits.
pub open spec fn step_well_placed(
    m: Map<u64, PlanetNode>,
    kids: Seq<u64>,
    parent: Option<usize>,
    base: int,
    t: Seq<Visit>,
    i: int,
) -> bool {
    &&& m.contains_key(t[i].node)
    &&& {
        ||| t[i].parent == parent && kids.contains(t[i].node)
        ||| exists|q: usize| #[trigger] placed_after(m, t, base, i, q)
    }
}

/// Every step of a complete placement plan places a planet of the map, and
/// places it either relative to the caller's parent, as one of the given
/// children, or relative to an earlier step whose planet it orbits; so
/// carrying out the steps in order always finds the parent already placed.
pub proof fn lemma_placement_well_ordered(
    m: Map<u64, PlanetNode>,
    kids: Seq<u64>,
    parent: Option<usize>,
    base: int,
    depth: nat,
)
    requires
        placement_complete(m, kids, depth),
        base >= 0,
        base + placement(m, kids, parent, base, depth).len() <= usize::MAX + 1,
    ensures
        forall|i: int|
            0 <= i < placement(m, kids, parent, base, depth).len() ==> step_well_placed(
                m,
                kids,
                parent,
                base,
                placement(m, kids, parent, base, depth),
                i,
            ),
    decreases depth, kids.len(),
{
    let t = placement(m, kids, parent, base, depth);
    if kids.len() > 0 && depth > 0 {
        let k = kids[0];
        let children = m[k].children@;
        let below = placement(m, children, Some(base as usize), base + 1, (depth - 1) as nat);
        let rest_kids = kids.drop_first();
        let off = 1 + below.len();
        let rest = placement(m, rest_kids, parent, base + off, depth);
        assert(t =~= seq![Visit { node: k, parent }] + below + rest);
        lemma_placement_well_ordered(
            m,
            children,
            Some(base as usize),
            base + 1,
            (depth - 1) as nat,
        );
        lemma_placement_well_ordered(m, rest_kids, parent, base + off, depth);
        assert forall|i: int| 0 <= i < t.len() implies step_well_placed(
            m,
            kids,
            parent,
            base,
            t,
            i,
        ) by {
            if i == 0 {
                assert(kids[0] == k);
            } else if i < off {
                let bi = i - 1;
                assert(t[i] == below[bi]);
                assert(step_well_placed(m, children, Some(base as usize), base + 1, below, bi));
                if below[bi].parent == Some(base as usize) && children.contains(below[bi].node) {
                    assert(t[0].node == k);
                    assert(placed_after(m, t, base, i, base as usize));
                } else {
                    let q = choose|q: usize| #[trigger] placed_after(m, below, base + 1, bi, q);
                    assert(t[q - base] == below[q - (base + 1)]);
                    assert(placed_after(m, t, base, i, q));
                }
            } else {
                let ri = i - off;
                assert(t[i] == rest[ri]);
                assert(step_well_placed(m, rest_kids, parent, base + off, rest, ri));
                if rest[ri].parent == parent && rest_kids.contains(rest[ri].node) {
                    let x = choose|x: int|
                        0 <= x < rest_kids.len() && rest_kids[x] == rest[ri].node;
                    assert(kids[x + 1] == rest[ri].node);
                } else {
                    let q = choose|q: usize| #[trigger] placed_after(m, rest, base + off, ri, q);
                    assert(t[q - base] == rest[q - (base + off)]);
                    assert(placed_after(m, t, base, i, q));
                }
            }
        }
    }
}

/// The planets of the steps of `t` that are placed relative to `p`, in order.
pub open spec fn placed_under(t: Seq<Visit>, p: Option<usize>) -> Seq<u64>
    decreases t.len(),
{
    if t.len() == 0 {
        Seq::empty()
    } else {
        let before = placed_under(t.drop_last(), p);
        if t.last().parent == p {
            before.push(t.last().node)
        } else {
            before
        }
    }
}

proof fn lemma_placed_under_concat(a: Seq<Visit>, b: Seq<Visit>, p: Option<usize>)
    ensures
        placed_under(a + b, p) == placed_under(a, p) + placed_under(b, p),
    decreases b.len(),
{
    if b.len() == 0 {
        assert(a + b =~= a);
        assert(placed_under(a, p) + placed_under(b, p) =~= placed_under(a, p));
    } else {
        assert((a + b).drop_last() =~= a + b.drop_last());
        lemma_placed_under_concat(a, b.drop_last(), p);
        let x = placed_under(a, p);
        let y = placed_under(b.drop_last(), p);
        assert((x + y).push(b.last().node) =~= x + y.push(b.last().node));
    }
}

proof fn lemma_placed_under_none(t: Seq<Visit>, p: Option<usize>)
    requires
        forall|i: int| 0 <= i < t.len() ==> #[trigger] t[i].parent != p,
    ensures
        placed_under(t, p) == Seq::<u64>::empty(),
    decreases t.len(),
{
    if t.len() > 0 {
        assert(t.last().parent != p);
        lemma_placed_under_none(t.drop_last(), p);
    }
}

/// Each step of a placement is placed relative to the caller's parent or to
/// an earlier step of the same placement.
proof fn lemma_parents_in_range(
    m: Map<u64, PlanetNode>,
    kids: Seq<u64>,
    parent: Option<usize>,
    base: int,
    depth: nat,
)
    requires
        placement_complete(m, kids, depth),
        base >= 0,
        base + placement(m, kids, parent, base, depth).len() <= usize::MAX + 1,
    ensures
        forall|i: int|
            0 <= i < placement(m, kids, parent, base, depth).len() ==> {
                let pi = #[trigger] placement(m, kids, parent, base, depth)[i].parent;
                pi == parent || (pi matches Some(y) && base <= y < base + i)
            },
{
    let t = placement(m, kids, parent, base, depth);
    lemma_placement_well_ordered(m, kids, parent, base, depth);
    assert forall|i: int| 0 <= i < t.len() implies {
        let pi = #[trigger] t[i].parent;
        pi == parent || (pi matches Some(y) && base <= y < base + i)
    } by {
        assert(step_well_placed(m, kids, parent, base, t, i));
        if t[i].parent != parent {
            let q = choose|q: usize| #[trigger] placed_after(m, t, base, i, q);
        }
    }
}

/// The plan places exactly the given planets relative to the caller's
/// parent, in order, and, relative to each step, exactly the planets that
/// orbit that step's planet, in order: no planet is left out, duplicated or
/// moved to another parent, however many planets orbit one planet.
pub proof fn lemma_placement_children(
    m: Map<u64, PlanetNode>,
    kids: Seq<u64>,
    parent: Option<usize>,
    base: int,
    depth: nat,
)
    requires
        placement_complete(m, kids, depth),
        base >= 0,
        base + placement(m, kids, parent, base, depth).len() <= usize::MAX + 1,
        parent matches Some(x) ==> x < base,
    ensures
        placed_under(placement(m, kids, parent, base, depth), parent) == kids,
        forall|q: int|
            base <= q < base + placement(m, kids, parent, base, depth).len() ==> placed_under(
                placement(m, kids, parent, base, depth),
                Some(q as usize),
            ) == m[#[trigger] placement(m, kids, parent, base, depth)[q - base].node].children@,
    decreases depth, kids.len(),
{
    let t = placement(m, kids, parent, base, depth);
    if kids.len() == 0 {
        assert(kids =~= Seq::<u64>::empty());
    } else {
        let k = kids[0];
        let children = m[k].children@;
        let d1 = (depth - 1) as nat;
        let v = seq![Visit { node: k, parent }];
        let below = placement(m, children, Some(base as usize), base + 1, d1);
        let off = 1 + below.len();
        let rest = placement(m, kids.drop_first(), parent, base + off, depth);
        assert(t =~= v + below + rest);
        lemma_placement_children(m, children, Some(base as usize), base + 1, d1);
        lemma_placement_children(m, kids.drop_first(), parent, base + off, depth);
        lemma_parents_in_range(m, children, Some(base as usize), base + 1, d1);
        lemma_parents_in_range(m, kids.drop_first(), parent, base + off, depth);
        lemma_placed_under_concat(v + below, rest, parent);
        lemma_placed_under_concat(v, below, parent);
        assert(placed_under(v, parent) =~= seq![k]) by {
            assert(v.drop_last().len() == 0);
            assert(placed_under(v.drop_last(), parent) == Seq::<u64>::empty());
            assert(v.last() == Visit { node: k, parent });
        }
        assert forall|i: int| 0 <= i < below.len() implies #[trigger] below[i].parent != parent by {
            let pi = below[i].parent;
            assert(pi == Some(base as usize) || (pi matches Some(y) && base + 1 <= y < base + 1
                + i));
        }
        lemma_placed_under_none(below, parent);
        assert(seq![k] + Seq::<u64>::empty() + kids.drop_first() =~= kids);
        assert forall|q: int| base <= q < base + t.len() implies placed_under(t, Some(q as usize))
            == m[#[trigger] t[q - base].node].children@ by {
            let pq = Some(q as usize);
            lemma_placed_under_concat(v + below, rest, pq);
            lemma_placed_under_concat(v, below, pq);
            assert(placed_under(v, pq) =~= Seq::<u64>::empty()) by {
                assert(v.drop_last().len() == 0);
                assert(placed_under(v.drop_last(), pq) == Seq::<u64>::empty());
                assert(v.last() == Visit { node: k, parent });
            }
            if q < base + off {
                assert forall|i: int| 0 <= i < rest.len() implies #[trigger] rest[i].parent
                    != pq by {
                    let pi = rest[i].parent;
                    assert(pi == parent || (pi matches Some(y) && base + off <= y < base + off
                        + i));
                }
                lemma_placed_under_none(rest, pq);
                if q == base {
                    assert(t[0].node == k);
                    assert(Seq::<u64>::empty() + children + Seq::<u64>::empty() =~= children);
                } else {
                    assert(t[q - base] == below[q - (base + 1)]);
                    let c = placed_under(below, pq);
                    assert(Seq::<u64>::empty() + c + Seq::<u64>::empty() =~= c);
                }
            } else {
                assert forall|i: int| 0 <= i < below.len() implies #[trigger] below[i].parent
                    != pq by {
                    let pi = below[i].parent;
                    assert(pi == Some(base as usize) || (pi matches Some(y) && base + 1 <= y < base
                        + 1 + i));
                }
                lemma_placed_under_none(below, pq);
                assert(t[q - base] == rest[q - (base + off)]);
                let c = placed_under(rest, pq);
                assert(Seq::<u64>::empty() + Seq::<u64>::empty() + c =~= c);
            }
        }
    }
}

/// The last step of `t` (whose first step is step `base`) that places a
/// planet with the reference-frame marker, or `acc` when there is none.
pub open spec fn last_reference(
    m: Map<u64, PlanetNode>,
    t: Seq<Visit>,
    base: int,
    acc: Option<int>,
) -> Option<int>
    decreases t.len(),
{
    if t.len() == 0 {
        acc
    } else if m[t.last().node].is_reference {
        Some(base + t.len() - 1)
    } else {
        last_reference(m, t.drop_last(), base, acc)
    }
}

proof fn lemma_last_reference_concat(
    m: Map<u64, PlanetNode>,
    a: Seq<Visit>,
    b: Seq<Visit>,
    base: int,
    acc: Option<int>,
)
    ensures
        last_reference(m, a + b, base, acc) == last_reference(
            m,
            b,
            base + a.len(),
            last_reference(m, a, base, acc),
        ),
    decreases b.len(),
{
    if b.len() == 0 {
        assert(a + b =~= a);
    } else {
        assert((a + b).drop_last() =~= a + b.drop_last());
        lemma_last_reference_concat(m, a, b.drop_last(), base, acc);
    }
}

proof fn lemma_last_reference_default(
    m: Map<u64, PlanetNode>,
    t: Seq<Visit>,
    base: int,
    acc: Option<int>,
)
    ensures
        last_reference(m, t, base, acc) == match last_reference(m, t, base, None) {
            Some(s) => Some(s),
            None => acc,
        },
    decreases t.len(),
{
    if t.len() > 0 {
        lemma_last_reference_default(m, t.drop_last(), base, acc);
    }
}

/// The reported step is `acc` or a step of the plan that places a planet
/// with the reference-frame marker: the reference position always comes
/// from a reference-frame planet, or is the origin. A step below the planets
/// of `kids` is only reported when its position does not read the origin.
pub proof fn lemma_reference_is_marked(
    m: Map<u64, PlanetNode>,
    kids: Seq<u64>,
    parent: Option<usize>,
    base: int,
    zero: Seq<bool>,
    acc: Option<int>,
    depth: nat,
)
    requires
        placement_complete(m, kids, depth),
    ensures
        ({
            let t = placement(m, kids, parent, base, depth);
            let r = reference_of(m, kids, base, zero, acc, depth);
            r == acc || (r matches Some(i) && base <= i < base + t.len()
                && m[t[i - base].node].is_reference && (t[i - base].parent == parent
                || !zero[i]))
        }),
    decreases depth, kids.len(),
{
    if kids.len() > 0 && depth > 0 {
        let k = kids[0];
        let children = m[k].children@;
        let d1 = (depth - 1) as nat;
        let below = placement(m, children, Some(base as usize), base + 1, d1);
        let off = 1 + below.len();
        let rest = placement(m, kids.drop_first(), parent, base + off, depth);
        let t = placement(m, kids, parent, base, depth);
        assert(t =~= seq![Visit { node: k, parent }] + below + rest);
        lemma_reference_is_marked(m, children, Some(base as usize), base + 1, zero, None, d1);
        let here = if m[k].is_reference {
            Some(base)
        } else {
            acc
        };
        let inner = reference_of(m, children, base + 1, zero, None, d1);
        let next = match inner {
            Some(s) => if !zero[s] {
                Some(s)
            } else {
                here
            },
            None => here,
        };
        lemma_reference_is_marked(m, kids.drop_first(), parent, base + off, zero, next, depth);
        if let Some(s) = inner {
            assert(t[s - base] == below[s - base - 1]);
        }
        assert(t[0].parent == parent);
        let r = reference_of(m, kids, base, zero, acc, depth);
        if let Some(i) = r {
            if i >= base + off && r != next {
                assert(t[i - base] == rest[i - base - off]);
            }
        }
    }
}

proof fn lemma_last_reference_none(m: Map<u64, PlanetNode>, t: Seq<Visit>, base: int)
    requires
        last_reference(m, t, base, None) is None,
    ensures
        forall|i: int| 0 <= i < t.len() ==> !m[#[trigger] t[i].node].is_reference,
    decreases t.len(),
{
    if t.len() > 0 {
        lemma_last_reference_none(m, t.drop_last(), base);
        assert forall|i: int| 0 <= i < t.len() implies !m[#[trigger] t[i].node].is_reference by {
            if i < t.len() - 1 {
                assert(t.drop_last()[i] == t[i]);
            }
        }
    }
}

/// When the last step of the plan that places a reference-frame planet does
/// not read the origin, that step is the one reported, whatever the other
/// steps read.
pub proof fn lemma_last_marked_reported(
    m: Map<u64, PlanetNode>,
    kids: Seq<u64>,
    parent: Option<usize>,
    base: int,
    zero: Seq<bool>,
    acc: Option<int>,
    depth: nat,
    last: int,
)
    requires
        placement_complete(m, kids, depth),
        last_reference(m, placement(m, kids, parent, base, depth), base, None) == Some(last),
        !zero[last],
    ensures
        reference_of(m, kids, base, zero, acc, depth) == Some(last),
    decreases depth, kids.len(),
{
    if kids.len() > 0 && depth > 0 {
        let k = kids[0];
        let children = m[k].children@;
        let d1 = (depth - 1) as nat;
        let v = seq![Visit { node: k, parent }];
        let below = placement(m, children, Some(base as usize), base + 1, d1);
        let off = 1 + below.len();
        let rest = placement(m, kids.drop_first(), parent, base + off, depth);
        let t = placement(m, kids, parent, base, depth);
        assert(t =~= v + below + rest);
        let here = if m[k].is_reference {
            Some(base)
        } else {
            None
        };
        assert(last_reference(m, v, base, None) == here) by {
            assert(v.last() == Visit { node: k, parent });
            assert(last_reference(m, v.drop_last(), base, None) == None::<int>);
        }
        lemma_last_reference_concat(m, v + below, rest, base, None);
        lemma_last_reference_concat(m, v, below, base, None);
        lemma_last_reference_default(m, rest, base + off, last_reference(m, v + below, base, None));
        lemma_last_reference_default(m, below, base + 1, here);
        let inner = reference_of(m, children, base + 1, zero, None, d1);
        let here_acc = if m[k].is_reference {
            Some(base)
        } else {
            acc
        };
        let next = match inner {
            Some(s) => if !zero[s] {
                Some(s)
            } else {
                here_acc
            },
            None => here_acc,
        };
        if last_reference(m, rest, base + off, None) is Some {
            let rest_kids = kids.drop_first();
            lemma_last_marked_reported(m, rest_kids, parent, base + off, zero, next, depth, last);
        } else {
            lemma_last_reference_none(m, rest, base + off);
            lemma_reference_is_marked(m, kids.drop_first(), parent, base + off, zero, next, depth);
            if last_reference(m, below, base + 1, None) is Some {
                let p = Some(base as usize);
                lemma_last_marked_reported(m, children, p, base + 1, zero, None, d1, last);
            } else {
                lemma_last_reference_none(m, below, base + 1);
                let p = Some(base as usize);
                lemma_reference_is_marked(m, children, p, base + 1, zero, None, d1);
            }
        }
    }
}

/// When no reference-frame planet sits at the origin at the moment its
/// position is read (other planets may), the reported step is simply the last
/// step of the plan that places a reference-frame planet (or `acc` when there
/// is none).
pub proof fn lemma_reference_is_last_marked(
    m: Map<u64, PlanetNode>,
    kids: Seq<u64>,
    parent: Option<usize>,
    base: int,
    zero: Seq<bool>,
    acc: Option<int>,
    depth: nat,
)
    requires
        placement_complete(m, kids, depth),
        forall|i: int|
            base <= i < base + placement(m, kids, parent, base, depth).len() && m[placement(
                m,
                kids,
                parent,
                base,
                depth,
            )[i - base].node].is_reference ==> !#[trigger] zero[i],
    ensures
        reference_of(m, kids, base, zero, acc, depth) == last_reference(
            m,
            placement(m, kids, parent, base, depth),
            base,
            acc,
        ),
    decreases depth, kids.len(),
{
    if kids.len() > 0 && depth > 0 {
        let k = kids[0];
        let children = m[k].children@;
        let d1 = (depth - 1) as nat;
        let v = seq![Visit { node: k, parent }];
        let below = placement(m, children, Some(base as usize), base + 1, d1);
        let off = 1 + below.len();
        let rest = placement(m, kids.drop_first(), parent, base + off, depth);
        let t = placement(m, kids, parent, base, depth);
        assert(t =~= v + below + rest);
        let here = if m[k].is_reference {
            Some(base)
        } else {
            acc
        };
        assert(last_reference(m, v, base, acc) == here) by {
            assert(v.last() == Visit { node: k, parent });
            assert(last_reference(m, v.drop_last(), base, acc) == acc);
        }
        assert forall|i: int|
            base + 1 <= i < base + off && m[below[i - (base + 1)].node].is_reference
            implies !#[trigger] zero[i] by {
            assert(t[i - base] == below[i - (base + 1)]);
        }
        lemma_reference_is_last_marked(m, children, Some(base as usize), base + 1, zero, None, d1);
        lemma_reference_is_marked(m, children, Some(base as usize), base + 1, zero, None, d1);
        assert forall|i: int|
            base + off <= i < base + off + rest.len() && m[rest[i - (base + off)].node].is_reference
            implies !#[trigger] zero[i] by {
            assert(t[i - base] == rest[i - (base + off)]);
        }
        lemma_last_reference_default(m, below, base + 1, here);
        lemma_last_reference_concat(m, v, below, base, acc);
        let next = last_reference(m, v + below, base, acc);
        lemma_reference_is_last_marked(m, kids.drop_first(), parent, base + off, zero, next, depth);
        lemma_last_reference_concat(m, v + below, rest, base, acc);
    }
}

/// Once the star system is recorded from a list holding a sun, the sun key
/// names a recorded planet, so looking the sun up never fails.
pub proof fn lemma_recorded_sun_present(planets: Seq<ShadowPlanet>)
    ensures
        last_sun(planets, None) matches Some(k) ==> recorded_map(planets).contains_key(k),
    decreases planets.len(),
{
    if planets.len() > 0 {
        lemma_recorded_sun_present(planets.drop_last());
    }
}

} // verus!
