use vstd::prelude::*;

use crate::hierarchy::{placement, placement_complete, PlanetNode};

verus! {

/// The planets a placement reaches, in placement order: each planet of
/// `kids`, followed by the planets that orbit it.
pub open spec fn reached(m: Map<u64, PlanetNode>, kids: Seq<u64>, depth: nat) -> Seq<u64>
    decreases depth, kids.len(),
{
    if kids.len() == 0 || depth == 0 {
        Seq::empty()
    } else {
        let k = kids[0];
        seq![k] + reached(m, m[k].children@, (depth - 1) as nat) + reached(
            m,
            kids.drop_first(),
            depth,
        )
    }
}

proof fn lemma_depth_step(
    m: Map<u64, PlanetNode>,
    kids: Seq<u64>,
    parent: Option<usize>,
    base: int,
    depth: nat,
)
    requires
        placement_complete(m, kids, depth),
    ensures
        placement_complete(m, kids, depth + 1),
        reached(m, kids, depth) == reached(m, kids, depth + 1),
        placement(m, kids, parent, base, depth) == placement(m, kids, parent, base, depth + 1),
    decreases depth, kids.len(),
{
    if kids.len() > 0 {
        let k = kids[0];
        lemma_depth_step(m, m[k].children@, Some(base as usize), base + 1, (depth - 1) as nat);
        let below = placement(m, m[k].children@, Some(base as usize), base + 1, (depth - 1) as nat);
        lemma_depth_step(m, kids.drop_first(), parent, base + 1 + below.len(), depth);
        assert((depth + 1 - 1) as nat == depth);
    }
}

/// A placement that completes within some depth completes within any
/// larger depth, and reaches the same planets in the same steps: the plan
/// does not depend on how much depth is allowed beyond what it needs.
pub proof fn lemma_placement_depth_independent(
    m: Map<u64, PlanetNode>,
    kids: Seq<u64>,
    parent: Option<usize>,
    base: int,
    depth: nat,
    larger: nat,
)
    requires
        placement_complete(m, kids, depth),
        depth <= larger,
    ensures
        placement_complete(m, kids, larger),
        reached(m, kids, depth) == reached(m, kids, larger),
        placement(m, kids, parent, base, depth) == placement(m, kids, parent, base, larger),
    decreases larger - depth,
{
    if depth < larger {
        lemma_depth_step(m, kids, parent, base, depth);
        lemma_placement_depth_independent(m, kids, parent, base, depth + 1, larger);
    }
}

/// Right after step `i` of `t`, the planets reached from those orbiting the
/// planet of step `i` follow, as a complete placement of depth `e` lists them.
spec fn subtree_at(m: Map<u64, PlanetNode>, t: Seq<u64>, i: int, e: nat) -> bool {
    let r = reached(m, m[t[i]].children@, e);
    &&& placement_complete(m, m[t[i]].children@, e)
    &&& i + 1 + r.len() <= t.len()
    &&& t.subrange(i + 1, i + 1 + r.len()) == r
}

/// Right after a planet, a complete placement lists exactly the planets
/// reached from the planets orbiting it.
proof fn lemma_reached_subtree(m: Map<u64, PlanetNode>, kids: Seq<u64>, depth: nat, i: int)
    requires
        placement_complete(m, kids, depth),
        0 <= i < reached(m, kids, depth).len(),
    ensures
        exists|e: nat| #[trigger] subtree_at(m, reached(m, kids, depth), i, e),
    decreases depth, kids.len(),
{
    let t = reached(m, kids, depth);
    let k = kids[0];
    let below = reached(m, m[k].children@, (depth - 1) as nat);
    let rest = reached(m, kids.drop_first(), depth);
    assert(t =~= seq![k] + below + rest);
    if i == 0 {
        let e = (depth - 1) as nat;
        assert(t.subrange(1, 1 + below.len() as int) =~= below);
        assert(t[i] == k);
        assert(subtree_at(m, t, i, e));
    } else if i < 1 + below.len() {
        lemma_reached_subtree(m, m[k].children@, (depth - 1) as nat, i - 1);
        let e = choose|e: nat| #[trigger] subtree_at(m, below, i - 1, e);
        let r = reached(m, m[below[i - 1]].children@, e);
        assert(t[i] == below[i - 1]);
        assert(t.subrange(i + 1, i + 1 + r.len()) =~= below.subrange(i, i + r.len()));
        assert(subtree_at(m, t, i, e));
    } else {
        let off = 1 + below.len();
        lemma_reached_subtree(m, kids.drop_first(), depth, i - off);
        let e = choose|e: nat| #[trigger] subtree_at(m, rest, i - off, e);
        let r = reached(m, m[rest[i - off]].children@, e);
        assert(t[i] == rest[i - off]);
        assert(t.subrange(i + 1, i + 1 + r.len()) =~= rest.subrange(
            i - off + 1,
            i - off + 1 + r.len(),
        ));
        assert(subtree_at(m, t, i, e));
    }
}

/// A planet whose orbiting planets can all be placed is never reached again
/// from them: a complete placement has no cycle through it.
proof fn lemma_no_return(m: Map<u64, PlanetNode>, k: u64, depth: nat)
    requires
        placement_complete(m, m[k].children@, depth),
    ensures
        !reached(m, m[k].children@, depth).contains(k),
{
    let s = reached(m, m[k].children@, depth);
    if s.contains(k) {
        let j = choose|j: int| 0 <= j < s.len() && s[j] == k;
        lemma_reached_subtree(m, m[k].children@, depth, j);
        let e = choose|e: nat| #[trigger] subtree_at(m, s, j, e);
        if e <= depth {
            lemma_placement_depth_independent(m, m[k].children@, None, 0, e, depth);
        } else {
            lemma_placement_depth_independent(m, m[k].children@, None, 0, depth, e);
        }
        assert(reached(m, m[k].children@, e) == s);
        assert(false);
    }
}

proof fn lemma_complete_avoiding(
    m: Map<u64, PlanetNode>,
    kids: Seq<u64>,
    depth: nat,
    avoid: Set<u64>,
)
    requires
        m.dom().finite(),
        placement_complete(m, kids, depth),
        forall|x: u64| #[trigger] reached(m, kids, depth).contains(x) ==> !avoid.contains(x),
    ensures
        placement_complete(m, kids, m.dom().difference(avoid).len()),
    decreases depth, kids.len(),
{
    if kids.len() > 0 {
        let t = reached(m, kids, depth);
        let k = kids[0];
        let below = reached(m, m[k].children@, (depth - 1) as nat);
        let rest = reached(m, kids.drop_first(), depth);
        assert(t =~= seq![k] + below + rest);
        let free = m.dom().difference(avoid);
        assert(t.contains(k)) by {
            assert(t[0] == k);
        }
        assert(free.contains(k));
        assert(free.len() >= 1);
        let avoid2 = avoid.insert(k);
        assert(m.dom().difference(avoid2) =~= free.remove(k));
        lemma_no_return(m, k, (depth - 1) as nat);
        assert forall|x: u64| #[trigger] below.contains(x) implies !avoid2.contains(x) by {
            let j = choose|j: int| 0 <= j < below.len() && below[j] == x;
            assert(t[1 + j] == x);
            assert(t.contains(x));
        }
        lemma_complete_avoiding(m, m[k].children@, (depth - 1) as nat, avoid2);
        assert forall|x: u64| #[trigger] rest.contains(x) implies !avoid.contains(x) by {
            let j = choose|j: int| 0 <= j < rest.len() && rest[j] == x;
            assert(t[1 + below.len() + j] == x);
            assert(t.contains(x));
        }
        lemma_complete_avoiding(m, kids.drop_first(), depth, avoid);
        assert((free.len() - 1) as nat == free.remove(k).len());
    }
}

/// A placement that completes at all completes within as many levels of
/// nesting as the map has planets: when no depth suffices the map holds a
/// missing planet or a cycle, and otherwise the map's size suffices.
pub proof fn lemma_complete_within_map_size(m: Map<u64, PlanetNode>, kids: Seq<u64>, depth: nat)
    requires
        m.dom().finite(),
        placement_complete(m, kids, depth),
    ensures
        placement_complete(m, kids, m.len()),
{
    lemma_complete_avoiding(m, kids, depth, Set::empty());
    assert(m.dom().difference(Set::empty()) =~= m.dom());
}

/// A ranking of the planets reached from `kids`: every planet of `kids` is
/// ranked, every ranked planet is in the map, and every planet orbiting a
/// ranked planet is ranked, strictly lower. Such a ranking exists exactly
/// when every planet reached is recorded and no planet is reached again from
/// the planets orbiting it.
pub open spec fn ranks_reached(m: Map<u64, PlanetNode>, kids: Seq<u64>, r: Map<u64, nat>) -> bool {
    &&& forall|i: int| 0 <= i < kids.len() ==> r.contains_key(#[trigger] kids[i])
    &&& forall|x: u64| #[trigger]
        r.contains_key(x) ==> {
            &&& m.contains_key(x)
            &&& forall|j: int|
                0 <= j < m[x].children@.len() ==> r.contains_key(#[trigger] m[x].children@[j])
                    && r[m[x].children@[j]] < r[x]
        }
}

/// One more than the highest rank of `kids`.
spec fn rank_bound(r: Map<u64, nat>, kids: Seq<u64>) -> nat
    decreases kids.len(),
{
    if kids.len() == 0 {
        0
    } else {
        let b = rank_bound(r, kids.drop_last());
        if r[kids.last()] + 1 > b {
            r[kids.last()] + 1
        } else {
            b
        }
    }
}

proof fn lemma_rank_bound(r: Map<u64, nat>, kids: Seq<u64>)
    ensures
        forall|i: int| 0 <= i < kids.len() ==> r[#[trigger] kids[i]] < rank_bound(r, kids),
    decreases kids.len(),
{
    if kids.len() > 0 {
        lemma_rank_bound(r, kids.drop_last());
        assert forall|i: int| 0 <= i < kids.len() implies r[#[trigger] kids[i]] < rank_bound(
            r,
            kids,
        ) by {
            if i < kids.len() - 1 {
                assert(kids.drop_last()[i] == kids[i]);
            }
        }
    }
}

proof fn lemma_ranked_within(m: Map<u64, PlanetNode>, kids: Seq<u64>, r: Map<u64, nat>, depth: nat)
    requires
        ranks_reached(m, kids, r),
        forall|i: int| 0 <= i < kids.len() ==> r[#[trigger] kids[i]] < depth,
    ensures
        placement_complete(m, kids, depth),
    decreases depth, kids.len(),
{
    if kids.len() > 0 {
        let k = kids[0];
        assert(r.contains_key(k));
        let children = m[k].children@;
        assert forall|i: int| 0 <= i < children.len() implies r[#[trigger] children[i]] < (depth
            - 1) as nat by {
            assert(r.contains_key(children[i]) && r[children[i]] < r[k]);
        }
        assert forall|i: int| 0 <= i < children.len() implies r.contains_key(
            #[trigger] children[i],
        ) by {
            assert(r.contains_key(children[i]));
        }
        lemma_ranked_within(m, children, r, (depth - 1) as nat);
        let rest = kids.drop_first();
        assert forall|i: int| 0 <= i < rest.len() implies r.contains_key(#[trigger] rest[i]) && r[
            rest[i]
        ] < depth by {
            assert(rest[i] == kids[i + 1]);
        }
        lemma_ranked_within(m, rest, r, depth);
    }
}

/// Every star system whose reached planets are all recorded and form no
/// cycle (as a ranking witnesses) can be placed completely, within as many
/// levels of nesting as the map has planets, however many planets orbit
/// each one.
pub proof fn lemma_ranked_placement_complete(
    m: Map<u64, PlanetNode>,
    kids: Seq<u64>,
    r: Map<u64, nat>,
)
    requires
        m.dom().finite(),
        ranks_reached(m, kids, r),
    ensures
        placement_complete(m, kids, m.len()),
{
    lemma_rank_bound(r, kids);
    lemma_ranked_within(m, kids, r, rank_bound(r, kids));
    lemma_complete_within_map_size(m, kids, rank_bound(r, kids));
}

/// A planet of the map whose orbiting planets can be placed completely.
spec fn placeable(m: Map<u64, PlanetNode>, x: u64) -> bool {
    m.contains_key(x) && exists|e: nat| #[trigger] placement_complete(m, m[x].children@, e)
}

/// The least depth that places the planets orbiting `x` completely.
spec fn least_depth(m: Map<u64, PlanetNode>, x: u64) -> nat {
    choose|e: nat|
        placement_complete(m, m[x].children@, e) && forall|e2: nat|
            e2 < e ==> !#[trigger] placement_complete(m, m[x].children@, e2)
}

proof fn lemma_least_depth_exists(m: Map<u64, PlanetNode>, kids: Seq<u64>, e: nat)
    requires
        placement_complete(m, kids, e),
    ensures
        exists|e0: nat|
            placement_complete(m, kids, e0) && forall|e2: nat|
                e2 < e0 ==> !#[trigger] placement_complete(m, kids, e2),
    decreases e,
{
    if e > 0 && placement_complete(m, kids, (e - 1) as nat) {
        lemma_least_depth_exists(m, kids, (e - 1) as nat);
    } else {
        assert forall|e2: nat| e2 < e implies !#[trigger] placement_complete(m, kids, e2) by {
            if placement_complete(m, kids, e2) {
                lemma_placement_depth_independent(m, kids, None, 0, e2, (e - 1) as nat);
            }
        }
    }
}

proof fn lemma_complete_kid(m: Map<u64, PlanetNode>, kids: Seq<u64>, depth: nat, i: int)
    requires
        placement_complete(m, kids, depth),
        0 <= i < kids.len(),
    ensures
        depth > 0,
        m.contains_key(kids[i]),
        placement_complete(m, m[kids[i]].children@, (depth - 1) as nat),
    decreases kids.len(),
{
    if i > 0 {
        lemma_complete_kid(m, kids.drop_first(), depth, i - 1);
    }
}

/// Conversely, every complete placement is witnessed by a ranking: the
/// planets it reaches are recorded and form no cycle.
pub proof fn lemma_complete_placement_ranked(m: Map<u64, PlanetNode>, kids: Seq<u64>, depth: nat)
    requires
        placement_complete(m, kids, depth),
    ensures
        exists|r: Map<u64, nat>| ranks_reached(m, kids, r),
{
    let r = Map::new(|x: u64| placeable(m, x), |x: u64| least_depth(m, x));
    assert forall|i: int| 0 <= i < kids.len() implies r.contains_key(#[trigger] kids[i]) by {
        lemma_complete_kid(m, kids, depth, i);
        assert(placement_complete(m, m[kids[i]].children@, (depth - 1) as nat));
    }
    assert forall|x: u64| #[trigger] r.contains_key(x) implies {
        &&& m.contains_key(x)
        &&& forall|j: int|
            0 <= j < m[x].children@.len() ==> r.contains_key(#[trigger] m[x].children@[j])
                && r[m[x].children@[j]] < r[x]
    } by {
        let e = choose|e: nat| #[trigger] placement_complete(m, m[x].children@, e);
        lemma_least_depth_exists(m, m[x].children@, e);
        let h = least_depth(m, x);
        assert(placement_complete(m, m[x].children@, h));
        assert forall|j: int| 0 <= j < m[x].children@.len() implies r.contains_key(
            #[trigger] m[x].children@[j],
        ) && r[m[x].children@[j]] < r[x] by {
            let c = m[x].children@[j];
            lemma_complete_kid(m, m[x].children@, h, j);
            let hc = (h - 1) as nat;
            assert(placement_complete(m, m[c].children@, hc));
            assert(placeable(m, c));
            lemma_least_depth_exists(m, m[c].children@, hc);
            let lc = least_depth(m, c);
            if lc > hc {
                assert(!placement_complete(m, m[c].children@, hc));
            }
        }
    }
    assert(ranks_reached(m, kids, r));
}

} // verus!
