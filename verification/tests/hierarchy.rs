use std::collections::HashMap;

use orbits::hierarchy::{
    fill_planet_map, placement_is_complete, reference_frame, relative_to_absolute, PlanetNode,
    ShadowPlanet, Visit,
};

const SUN: u64 = 11;
const SATELLITE: u64 = 12;
const MOON: u64 = 13;

fn planet(entity: u64, children: Vec<u64>, is_sun: bool, is_reference: bool) -> ShadowPlanet {
    ShadowPlanet { entity, children, is_sun, is_reference }
}

fn node(children: Vec<u64>, is_sun: bool, is_reference: bool) -> PlanetNode {
    PlanetNode { children, is_sun, is_reference }
}

/// The star system of the demo scene: a sun, a satellite that serves as
/// reference frame, and a moon around the satellite.
fn demo_planets() -> Vec<ShadowPlanet> {
    vec![
        planet(SUN, vec![SATELLITE], true, false),
        planet(SATELLITE, vec![MOON], false, true),
        planet(MOON, vec![], false, false),
    ]
}

fn demo_map() -> HashMap<u64, PlanetNode> {
    let mut map = HashMap::new();
    let mut sun = None;
    assert!(fill_planet_map(&mut map, &mut sun, demo_planets()));
    map
}

#[test]
fn fill_records_scene_and_sun() {
    let mut map = HashMap::new();
    let mut sun = None;
    assert!(fill_planet_map(&mut map, &mut sun, demo_planets()));
    assert_eq!(sun, Some(SUN));
    assert_eq!(map.len(), 3);
    assert_eq!(map[&SUN].children, vec![SATELLITE]);
    assert!(map[&SUN].is_sun);
    assert!(!map[&SUN].is_reference);
    assert_eq!(map[&SATELLITE].children, vec![MOON]);
    assert!(map[&SATELLITE].is_reference);
    assert!(map[&MOON].children.is_empty());
}

#[test]
fn fill_happens_only_once() {
    let mut map = HashMap::new();
    let mut sun = None;
    assert!(fill_planet_map(&mut map, &mut sun, demo_planets()));
    let other = vec![planet(99, vec![], true, false)];
    assert!(!fill_planet_map(&mut map, &mut sun, other));
    assert_eq!(sun, Some(SUN));
    assert_eq!(map.len(), 3);
    assert!(!map.contains_key(&99));
}

#[test]
fn fill_keeps_sun_key_without_sun_and_takes_last_sun() {
    let mut map = HashMap::new();
    let mut sun = Some(5);
    assert!(fill_planet_map(&mut map, &mut sun, vec![planet(1, vec![], false, false)]));
    assert_eq!(sun, Some(5));

    let mut map = HashMap::new();
    let mut sun = None;
    let ps = vec![planet(1, vec![], true, false), planet(2, vec![], false, false), planet(3, vec![], true, false)];
    assert!(fill_planet_map(&mut map, &mut sun, ps));
    assert_eq!(sun, Some(3));
}

#[test]
fn fill_later_entry_replaces_earlier() {
    let mut map = HashMap::new();
    let mut sun = None;
    let ps = vec![planet(1, vec![2], false, false), planet(1, vec![3], false, true)];
    assert!(fill_planet_map(&mut map, &mut sun, ps));
    assert_eq!(map.len(), 1);
    assert_eq!(map[&1].children, vec![3]);
    assert!(map[&1].is_reference);
}

#[test]
fn fill_with_nothing_leaves_map_empty() {
    let mut map = HashMap::new();
    let mut sun = None;
    assert!(fill_planet_map(&mut map, &mut sun, vec![]));
    assert!(map.is_empty());
    assert_eq!(sun, None);
}

#[test]
fn plan_places_satellite_then_moon() {
    let map = demo_map();
    assert!(placement_is_complete(&vec![SATELLITE], &map));
    let plan = relative_to_absolute(&vec![SATELLITE], &map);
    assert_eq!(
        plan,
        vec![Visit { node: SATELLITE, parent: None }, Visit { node: MOON, parent: Some(0) }]
    );
}

#[test]
fn plan_is_depth_first() {
    // 1 -> [2, 3], 2 -> [4], 3 -> [5, 6]
    let mut map = HashMap::new();
    map.insert(1, node(vec![2, 3], true, false));
    map.insert(2, node(vec![4], false, false));
    map.insert(3, node(vec![5, 6], false, false));
    map.insert(4, node(vec![], false, false));
    map.insert(5, node(vec![], false, false));
    map.insert(6, node(vec![], false, false));
    let plan = relative_to_absolute(&vec![2, 3], &map);
    assert_eq!(
        plan,
        vec![
            Visit { node: 2, parent: None },
            Visit { node: 4, parent: Some(0) },
            Visit { node: 3, parent: None },
            Visit { node: 5, parent: Some(2) },
            Visit { node: 6, parent: Some(2) },
        ]
    );
}

#[test]
fn plan_visits_shared_child_twice() {
    let mut map = HashMap::new();
    map.insert(1, node(vec![3], false, false));
    map.insert(2, node(vec![3], false, false));
    map.insert(3, node(vec![], false, false));
    let plan = relative_to_absolute(&vec![1, 2], &map);
    assert_eq!(
        plan,
        vec![
            Visit { node: 1, parent: None },
            Visit { node: 3, parent: Some(0) },
            Visit { node: 2, parent: None },
            Visit { node: 3, parent: Some(2) },
        ]
    );
}

#[test]
fn plan_of_no_children_is_empty() {
    let map = demo_map();
    assert!(placement_is_complete(&vec![], &map));
    assert_eq!(relative_to_absolute(&vec![], &map), vec![]);
    assert_eq!(relative_to_absolute(&vec![], &HashMap::new()), vec![]);
}

#[test]
fn plan_fails_on_unknown_planet() {
    let map = demo_map();
    assert!(!placement_is_complete(&vec![42], &map));
    let mut map = demo_map();
    map.insert(MOON, node(vec![42], false, false));
    assert!(!placement_is_complete(&vec![SATELLITE], &map));
    assert!(placement_is_complete(&vec![], &map));
}

#[test]
fn plan_fails_on_cycle() {
    let mut map = HashMap::new();
    map.insert(1, node(vec![2], false, false));
    map.insert(2, node(vec![1], false, false));
    assert!(!placement_is_complete(&vec![1], &map));
    let mut map = HashMap::new();
    map.insert(7, node(vec![7], false, false));
    assert!(!placement_is_complete(&vec![7], &map));
}

#[test]
fn plan_accepts_chain_as_deep_as_map() {
    let mut map = HashMap::new();
    map.insert(1, node(vec![2], false, false));
    map.insert(2, node(vec![3], false, false));
    map.insert(3, node(vec![], false, false));
    assert!(placement_is_complete(&vec![1], &map));
    let plan = relative_to_absolute(&vec![1], &map);
    assert_eq!(
        plan,
        vec![
            Visit { node: 1, parent: None },
            Visit { node: 2, parent: Some(0) },
            Visit { node: 3, parent: Some(1) },
        ]
    );
}

#[test]
fn reference_is_satellite_when_not_at_origin() {
    let map = demo_map();
    assert_eq!(reference_frame(&vec![SATELLITE], &map, &vec![false, false]), Some(0));
    // A reference frame at the origin is still reported when nothing below overrides it.
    assert_eq!(reference_frame(&vec![SATELLITE], &map, &vec![true, false]), Some(0));
}

#[test]
fn reference_is_origin_without_reference_frame() {
    let mut map = demo_map();
    map.insert(SATELLITE, node(vec![MOON], false, false));
    assert_eq!(reference_frame(&vec![SATELLITE], &map, &vec![false, false]), None);
    assert_eq!(reference_frame(&vec![], &map, &vec![]), None);
}

#[test]
fn reference_from_below_overrides_unless_at_origin() {
    let mut map = demo_map();
    map.insert(MOON, node(vec![], false, true));
    assert_eq!(reference_frame(&vec![SATELLITE], &map, &vec![false, false]), Some(1));
    assert_eq!(reference_frame(&vec![SATELLITE], &map, &vec![false, true]), Some(0));
}

#[test]
fn reference_of_later_sibling_wins() {
    // 2 and 3 are both reference frames; 2's child 4 as well.
    let mut map = HashMap::new();
    map.insert(2, node(vec![4], false, true));
    map.insert(3, node(vec![], false, true));
    map.insert(4, node(vec![], false, true));
    let zero = vec![false, false, false];
    assert_eq!(reference_frame(&vec![2, 3], &map, &zero), Some(2));
    // An earlier sibling's subtree reporting the origin does not reset the report.
    map.insert(3, node(vec![], false, false));
    assert_eq!(reference_frame(&vec![2, 3], &map, &vec![false, true, false]), Some(0));
    assert_eq!(reference_frame(&vec![2, 3], &map, &vec![false, false, false]), Some(1));
}

#[test]
fn reference_ignores_origin_of_unmarked_planets() {
    // Only the moon is a reference frame; the satellite reads the origin.
    let mut map = demo_map();
    map.insert(SATELLITE, node(vec![MOON], false, false));
    map.insert(MOON, node(vec![], false, true));
    assert_eq!(reference_frame(&vec![SATELLITE], &map, &vec![true, false]), Some(1));
}
