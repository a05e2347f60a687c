use scene_graph::handle::Handle;
use scene_graph::lod::{are_objects_acceptable, LevelOfDetail, LodGroup};

fn h(i: u32) -> Handle {
    Handle::new(i, 1)
}

#[test]
fn inverted_bounds_are_put_in_order() {
    let level = LevelOfDetail::new(800_000, 200_000, vec![h(1)]);
    assert_eq!(level.begin(), 200_000);
    assert_eq!(level.end(), 800_000);
    assert_eq!(level.objects(), &vec![h(1)]);
}

#[test]
fn bounds_are_clamped_into_the_unit_range() {
    let level = LevelOfDetail::new(-500_000, 2_000_000, vec![h(1)]);
    assert_eq!(level.begin(), 0);
    assert_eq!(level.end(), 1_000_000);
    let level = LevelOfDetail::new(3_000_000, 2_000_000, vec![h(1)]);
    assert_eq!((level.begin(), level.end()), (1_000_000, 1_000_000));
    let level = LevelOfDetail::new(-1, -2, vec![h(1)]);
    assert_eq!((level.begin(), level.end()), (0, 0));
}

#[test]
fn set_begin_clamps_and_swaps() {
    let mut level = LevelOfDetail::new(200_000, 500_000, vec![h(1)]);
    level.set_begin(300_000);
    assert_eq!((level.begin(), level.end()), (300_000, 500_000));
    level.set_begin(700_000);
    assert_eq!((level.begin(), level.end()), (500_000, 700_000));
    level.set_begin(-10);
    assert_eq!((level.begin(), level.end()), (0, 700_000));
    level.set_begin(5_000_000);
    assert_eq!((level.begin(), level.end()), (700_000, 1_000_000));
}

#[test]
fn set_end_clamps_and_swaps() {
    let mut level = LevelOfDetail::new(200_000, 500_000, vec![h(1)]);
    level.set_end(400_000);
    assert_eq!((level.begin(), level.end()), (200_000, 400_000));
    level.set_end(100_000);
    assert_eq!((level.begin(), level.end()), (100_000, 200_000));
    level.set_end(9_000_000);
    assert_eq!((level.begin(), level.end()), (100_000, 1_000_000));
    level.set_end(-3);
    assert_eq!((level.begin(), level.end()), (0, 100_000));
}

#[test]
fn objects_must_be_present_and_not_none() {
    assert!(are_objects_acceptable(&vec![h(1), h(2)]));
    assert!(!are_objects_acceptable(&vec![]));
    assert!(!are_objects_acceptable(&vec![h(1), Handle::none()]));
    assert!(LevelOfDetail::try_new(0, 1, vec![h(1)]).is_some());
    assert!(LevelOfDetail::try_new(0, 1, vec![]).is_none());
    assert!(LevelOfDetail::try_new(0, 1, vec![Handle::none()]).is_none());
}

#[test]
fn the_first_level_that_holds_the_distance_is_selected() {
    let group = LodGroup::new(vec![
        LevelOfDetail::new(0, 300_000, vec![h(1)]),
        LevelOfDetail::new(300_000, 1_000_000, vec![h(2)]),
    ]);
    assert_eq!(group.select(200_000), Some(0));
    assert_eq!(group.select(0), Some(0));
    assert_eq!(group.select(299_999), Some(0));
    assert_eq!(group.select(300_000), Some(1));
    assert_eq!(group.select(1_000_000), Some(1));
    assert_eq!(group.select(1_000_001), None);
    assert_eq!(group.select(-1), None);
}

#[test]
fn overlapping_levels_select_the_earlier_one() {
    let group = LodGroup::new(vec![
        LevelOfDetail::new(0, 600_000, vec![h(1)]),
        LevelOfDetail::new(400_000, 1_000_000, vec![h(2)]),
    ]);
    assert_eq!(group.select(500_000), Some(0));
    assert_eq!(group.select(600_000), Some(1));
}

#[test]
fn a_gap_or_an_empty_group_selects_nothing() {
    let group = LodGroup::new(vec![
        LevelOfDetail::new(0, 200_000, vec![h(1)]),
        LevelOfDetail::new(500_000, 900_000, vec![h(2)]),
    ]);
    assert_eq!(group.select(300_000), None);
    assert_eq!(group.select(200_000), None);
    assert_eq!(group.select(900_000), Some(1));
    assert_eq!(group.select(950_000), None);
    assert_eq!(LodGroup::default().select(0), None);
    assert_eq!(LodGroup::new(vec![]).select(500_000), None);
}

#[test]
fn only_the_last_level_holds_its_far_bound() {
    let group = LodGroup::new(vec![
        LevelOfDetail::new(0, 500_000, vec![h(1)]),
        LevelOfDetail::new(0, 500_000, vec![h(2)]),
    ]);
    assert_eq!(group.select(500_000), Some(1));
    assert_eq!(group.select(499_999), Some(0));
}
