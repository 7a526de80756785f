use orbits::targeting::{target_handler, Targetable};

fn t(new_target: bool, is_targeted: bool) -> Targetable {
    Targetable { new_target, is_targeted }
}

fn frame(ts: &mut Vec<Targetable>, reset: &mut bool, pressed: bool, hits: Vec<bool>) {
    target_handler(ts, reset, pressed, &hits);
}

#[test]
fn default_is_unselected() {
    let d = Targetable::default();
    assert!(!d.new_target);
    assert!(!d.is_targeted);
}

#[test]
fn frame_without_click_changes_nothing_when_settled() {
    let mut ts = vec![t(false, false), t(false, true), t(false, false)];
    let mut reset = false;
    frame(&mut ts, &mut reset, false, vec![true, true, true]);
    assert_eq!(ts, vec![t(false, false), t(false, true), t(false, false)]);
    assert!(!reset);
}

#[test]
fn click_on_nothing_changes_nothing() {
    let mut ts = vec![t(false, true), t(false, false)];
    let mut reset = false;
    frame(&mut ts, &mut reset, true, vec![false, false]);
    assert_eq!(ts, vec![t(false, true), t(false, false)]);
    assert!(!reset);
}

#[test]
fn click_selects_hit_and_clears_later_objects() {
    // The third object was selected before; the click lands on the second.
    let mut ts = vec![t(false, false), t(false, false), t(false, true)];
    let mut reset = false;
    frame(&mut ts, &mut reset, true, vec![false, true, false]);
    assert_eq!(ts, vec![t(false, false), t(true, true), t(false, false)]);
    assert!(reset);
}

#[test]
fn frame_after_click_clears_earlier_selection() {
    // The first object was selected before; the click lands on the third.
    let mut ts = vec![t(false, true), t(false, false), t(false, false)];
    let mut reset = false;
    frame(&mut ts, &mut reset, true, vec![false, false, true]);
    assert_eq!(ts, vec![t(false, true), t(false, false), t(true, true)]);
    assert!(reset);
    frame(&mut ts, &mut reset, false, vec![false, false, false]);
    assert_eq!(ts, vec![t(false, false), t(false, false), t(false, true)]);
    assert!(!reset);
}

#[test]
fn first_hit_wins_when_objects_overlap() {
    let mut ts = vec![t(false, false), t(false, false), t(false, false)];
    let mut reset = false;
    frame(&mut ts, &mut reset, true, vec![false, true, true]);
    assert_eq!(ts, vec![t(false, false), t(true, true), t(false, false)]);
    assert!(reset);
}

#[test]
fn click_while_reset_pending_lands_after_the_pick() {
    // Object 0 holds the pick from the last frame; this frame's click hits
    // object 0 and object 2. Object 0 only clears the pending reset, object 2
    // takes the new pick.
    let mut ts = vec![t(true, true), t(false, false), t(false, false)];
    let mut reset = true;
    frame(&mut ts, &mut reset, true, vec![true, false, true]);
    assert_eq!(ts, vec![t(false, true), t(false, false), t(true, true)]);
    assert!(reset);
}

#[test]
fn click_before_the_pick_is_ignored_while_reset_pending() {
    let mut ts = vec![t(false, true), t(true, true)];
    let mut reset = true;
    frame(&mut ts, &mut reset, true, vec![true, false]);
    assert_eq!(ts, vec![t(false, false), t(false, true)]);
    assert!(!reset);
}

#[test]
fn empty_scene() {
    let mut ts: Vec<Targetable> = vec![];
    let mut reset = true;
    frame(&mut ts, &mut reset, true, vec![]);
    assert!(ts.is_empty());
    assert!(reset);
}

fn consistent(ts: &[Targetable], reset: bool) -> bool {
    let picks: Vec<usize> = (0..ts.len()).filter(|&i| ts[i].new_target).collect();
    let selected: Vec<usize> = (0..ts.len()).filter(|&i| ts[i].is_targeted).collect();
    if reset {
        picks.len() == 1 && selected.iter().all(|&s| s <= picks[0])
    } else {
        picks.is_empty() && selected.len() <= 1
    }
}

#[test]
fn frames_keep_selection_consistent() {
    let mut ts = vec![Targetable::default(); 4];
    let mut reset = false;
    let script: Vec<(bool, Vec<bool>)> = vec![
        (true, vec![false, false, true, true]),
        (true, vec![true, false, false, false]),
        (false, vec![true, true, true, true]),
        (true, vec![false, true, false, false]),
        (true, vec![false, false, false, true]),
        (false, vec![false, false, false, false]),
        (false, vec![false, false, false, false]),
    ];
    assert!(consistent(&ts, reset));
    for (pressed, hits) in script {
        let before = ts.clone();
        frame(&mut ts, &mut reset, pressed, hits);
        assert!(consistent(&ts, reset));
        if !pressed {
            assert!(!reset);
            for i in 0..ts.len() {
                assert!(!ts[i].is_targeted || before[i].is_targeted);
            }
        }
    }
    assert_eq!(ts, vec![t(false, false), t(false, false), t(false, false), t(false, true)]);
}

#[test]
fn click_then_quiet_frame_leaves_only_hit_selected() {
    let mut ts = vec![t(false, true), t(false, false), t(false, false), t(false, false)];
    let mut reset = false;
    frame(&mut ts, &mut reset, true, vec![false, false, true, true]);
    frame(&mut ts, &mut reset, false, vec![true, true, true, true]);
    assert_eq!(ts, vec![t(false, false), t(false, false), t(false, true), t(false, false)]);
    assert!(!reset);
}
