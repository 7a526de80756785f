use vstd::prelude::*;

verus! {

/// The position of the last `true` in `marks`, if there is one.
pub open spec fn last_marked_index(marks: Seq<bool>) -> Option<int>
    decreases marks.len(),
{
    if marks.len() == 0 {
        None
    } else if marks.last() {
        Some(marks.len() - 1)
    } else {
        last_marked_index(marks.drop_last())
    }
}

/// The spec-level counterpart of an optional position.
pub open spec fn opt_index(o: Option<usize>) -> Option<int> {
    match o {
        Some(i) => Some(i as int),
        None => None,
    }
}

/// Elementwise conjunction of two flag sequences of equal length.
pub open spec fn both_marked(a: Seq<bool>, b: Seq<bool>) -> Seq<bool> {
    Seq::new(a.len(), |i: int| a[i] && b[i])
}

/// Position of the last marked entry.
fn last_marked(marks: &Vec<bool>) -> (res: Option<usize>)
    ensures
        opt_index(res) == last_marked_index(marks@),
{
    let mut res: Option<usize> = None;
    let mut i: usize = 0;
    while i < marks.len()
        invariant
            i <= marks.len(),
            opt_index(res) == last_marked_index(marks@.take(i as int)),
        decreases marks.len() - i,
    {
        proof {
            assert(marks@.take(i + 1).drop_last() =~= marks@.take(i as int));
        }
        if marks[i] {
            res = Some(i);
        }
        i += 1;
    }
    proof {
        assert(marks@.take(marks.len() as int) =~= marks@);
    }
    res
}

/// The object the camera follows: the last one, in the order the world
/// lists them, whose selection flag is set. `None` when nothing is
/// selected, in which case the camera aims at the origin.
pub fn camera_target(targeted: &Vec<bool>) -> (res: Option<usize>)
    ensures
        opt_index(res) == last_marked_index(targeted@),
{
    last_marked(targeted)
}

/// The planet whose position is reported as the reference position while
/// the forces on a body are summed: the last planet, in the order the world
/// lists them, that has a positive mass and carries the reference-frame
/// marker. Planets without mass are skipped altogether.
pub fn reference_planet(massive: &Vec<bool>, reference: &Vec<bool>) -> (res: Option<usize>)
    requires
        massive.len() == reference.len(),
    ensures
        opt_index(res) == last_marked_index(both_marked(massive@, reference@)),
{
    let mut marks: Vec<bool> = Vec::new();
    let mut i: usize = 0;
    while i < massive.len()
        invariant
            i <= massive.len(),
            massive.len() == reference.len(),
            marks@ =~= both_marked(massive@, reference@).take(i as int),
        decreases massive.len() - i,
    {
        marks.push(massive[i] && reference[i]);
        i += 1;
    }
    proof {
        assert(both_marked(massive@, reference@).take(massive.len() as int) =~= both_marked(
            massive@,
            reference@,
        ));
    }
    last_marked(&marks)
}

/// The chosen position is marked and no later position is.
pub proof fn lemma_last_marked_index(marks: Seq<bool>)
    ensures
        match last_marked_index(marks) {
            Some(i) => 0 <= i < marks.len() && marks[i] && forall|j: int|
                i < j < marks.len() ==> !marks[j],
            None => forall|j: int| 0 <= j < marks.len() ==> !marks[j],
        },
    decreases marks.len(),
{
    if marks.len() > 0 && !marks.last() {
        lemma_last_marked_index(marks.drop_last());
        assert forall|j: int| 0 <= j < marks.len() - 1 implies marks[j] == marks.drop_last()[j] by {
        }
    }
}

/// The entity id of the planet chosen as reference frame among planets
/// `ids` with the given mass and marker flags, as `reference_planet` picks it.
pub open spec fn chosen_planet(ids: Seq<u64>, massive: Seq<bool>, reference: Seq<bool>) -> Option<
    u64,
> {
    match last_marked_index(both_marked(massive, reference)) {
        Some(i) => Some(ids[i]),
        None => None,
    }
}

/// The planets with positive mass, in order, each with its id and marker.
pub open spec fn massive_planets(ids: Seq<u64>, massive: Seq<bool>, reference: Seq<bool>) -> Seq<
    (u64, bool),
>
    decreases ids.len(),
{
    if ids.len() == 0 {
        Seq::empty()
    } else {
        let before = massive_planets(ids.drop_last(), massive.drop_last(), reference.drop_last());
        if massive.last() {
            before.push((ids.last(), reference.last()))
        } else {
            before
        }
    }
}

/// The id of the last marked entry of `planets`, if any.
pub open spec fn last_marked_planet(planets: Seq<(u64, bool)>) -> Option<u64>
    decreases planets.len(),
{
    if planets.len() == 0 {
        None
    } else if planets.last().1 {
        Some(planets.last().0)
    } else {
        last_marked_planet(planets.drop_last())
    }
}

/// The reference-frame choice depends on the planets with positive mass
/// alone: it is the last marked one among them.
pub proof fn lemma_reference_from_massive_only(
    ids: Seq<u64>,
    massive: Seq<bool>,
    reference: Seq<bool>,
)
    requires
        massive.len() == ids.len(),
        reference.len() == ids.len(),
    ensures
        chosen_planet(ids, massive, reference) == last_marked_planet(
            massive_planets(ids, massive, reference),
        ),
    decreases ids.len(),
{
    if ids.len() > 0 {
        let n = ids.len() - 1;
        let (ip, mp, rp) = (ids.drop_last(), massive.drop_last(), reference.drop_last());
        lemma_reference_from_massive_only(ip, mp, rp);
        let marks = both_marked(massive, reference);
        assert(marks.drop_last() =~= both_marked(mp, rp));
        let before = massive_planets(ip, mp, rp);
        if massive.last() {
            assert(before.push((ids.last(), reference.last())).drop_last() =~= before);
        }
        if let Some(i) = last_marked_index(both_marked(mp, rp)) {
            lemma_last_marked_index(both_marked(mp, rp));
            assert(ids[i] == ip[i]);
        }
    }
}

/// Planets without positive mass never affect the reference-frame choice:
/// two planet lists whose planets with positive mass agree, in order, on id
/// and marker yield the same chosen planet, whatever massless planets lie
/// between them.
pub proof fn lemma_massless_planets_ignored(
    ids1: Seq<u64>,
    massive1: Seq<bool>,
    reference1: Seq<bool>,
    ids2: Seq<u64>,
    massive2: Seq<bool>,
    reference2: Seq<bool>,
)
    requires
        massive1.len() == ids1.len(),
        reference1.len() == ids1.len(),
        massive2.len() == ids2.len(),
        reference2.len() == ids2.len(),
        massive_planets(ids1, massive1, reference1) == massive_planets(ids2, massive2, reference2),
    ensures
        chosen_planet(ids1, massive1, reference1) == chosen_planet(ids2, massive2, reference2),
{
    lemma_reference_from_massive_only(ids1, massive1, reference1);
    lemma_reference_from_massive_only(ids2, massive2, reference2);
}

} // verus!
