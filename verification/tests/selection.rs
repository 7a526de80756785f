use orbits::selection::{camera_target, reference_planet};

#[test]
fn camera_follows_last_selected() {
    assert_eq!(camera_target(&vec![false, true, false, true, false]), Some(3));
}

#[test]
fn camera_follows_single_selected() {
    assert_eq!(camera_target(&vec![false, false, true]), Some(2));
    assert_eq!(camera_target(&vec![true]), Some(0));
}

#[test]
fn camera_without_selection_aims_at_origin() {
    assert_eq!(camera_target(&vec![]), None);
    assert_eq!(camera_target(&vec![false, false]), None);
}

#[test]
fn reference_planet_is_last_massive_marked() {
    let massive = vec![true, true, true, true];
    let reference = vec![false, true, false, true];
    assert_eq!(reference_planet(&massive, &reference), Some(3));
}

#[test]
fn reference_planet_skips_massless() {
    let massive = vec![true, true, false];
    let reference = vec![true, false, true];
    assert_eq!(reference_planet(&massive, &reference), Some(0));
}

#[test]
fn reference_planet_none_when_unmarked() {
    assert_eq!(reference_planet(&vec![true, true], &vec![false, false]), None);
    assert_eq!(reference_planet(&vec![false], &vec![true]), None);
    assert_eq!(reference_planet(&vec![], &vec![]), None);
}

#[test]
fn massless_planets_do_not_change_reference() {
    // Planet ids 7, 5, 9; 7 and 9 have no mass but carry the marker.
    let ids = vec![7u64, 5, 9];
    let chosen = reference_planet(&vec![false, true, false], &vec![true, true, true]).map(|i| ids[i]);
    // The same system without the massless planets.
    let ids2 = vec![5u64];
    let chosen2 = reference_planet(&vec![true], &vec![true]).map(|i| ids2[i]);
    assert_eq!(chosen, Some(5));
    assert_eq!(chosen, chosen2);
}
