use chain_lockers::direction::Direction;
use chain_lockers::grid::GridPoint;
use chain_lockers::modifier::{BadModifier, GoodModifier};
use chain_lockers::waypoint::{closest_point, closest_waypoint_idx, next_waypoint};

#[test]
fn adjacency_is_orthogonal_only() {
    let c = GridPoint::new(3, 3);
    assert!(c.is_adjacent(&GridPoint::new(2, 3)));
    assert!(c.is_adjacent(&GridPoint::new(4, 3)));
    assert!(c.is_adjacent(&GridPoint::new(3, 2)));
    assert!(c.is_adjacent(&GridPoint::new(3, 4)));
    assert!(!c.is_adjacent(&GridPoint::new(4, 4)));
    assert!(!c.is_adjacent(&GridPoint::new(3, 3)));
    assert!(!c.is_adjacent(&GridPoint::new(5, 3)));
}

#[test]
fn adjacent_tile_directions() {
    let c = GridPoint::new(3, 3);
    assert_eq!(c.get_adjacent_tile_direction(&GridPoint::new(3, 4)), Some(Direction::Up));
    assert_eq!(c.get_adjacent_tile_direction(&GridPoint::new(3, 2)), Some(Direction::Down));
    assert_eq!(c.get_adjacent_tile_direction(&GridPoint::new(2, 3)), Some(Direction::Left));
    assert_eq!(c.get_adjacent_tile_direction(&GridPoint::new(4, 3)), Some(Direction::Right));
    assert_eq!(c.get_adjacent_tile_direction(&GridPoint::new(4, 4)), None);
    assert_eq!(c.get_adjacent_tile_direction(&GridPoint::new(3, 3)), None);
}

#[test]
fn opposite_directions_pair_up() {
    assert_eq!(Direction::Up.opposite(), Direction::Down);
    assert_eq!(Direction::Down.opposite(), Direction::Up);
    assert_eq!(Direction::Left.opposite(), Direction::Right);
    assert_eq!(Direction::Right.opposite(), Direction::Left);
    for d in [Direction::Up, Direction::Down, Direction::Left, Direction::Right] {
        assert_eq!(d.opposite().opposite(), d);
    }
}

#[test]
fn closest_waypoint_by_distance() {
    let path = vec![GridPoint::new(0, 0), GridPoint::new(1, 0), GridPoint::new(2, 0)];
    // world position (120, 10) with 100 units per cell sits nearest cell (1,0)
    assert_eq!(closest_waypoint_idx(&path, 120, 10, 100), 1);
    assert_eq!(closest_waypoint_idx(&path, 205, -3, 100), 2);
}

#[test]
fn closest_waypoint_tie_takes_lowest_index() {
    let path = vec![GridPoint::new(0, 0), GridPoint::new(1, 0), GridPoint::new(2, 0)];
    // (50, 0) is equally far from cells (0,0) and (1,0)
    assert_eq!(closest_waypoint_idx(&path, 50, 0, 100), 0);
}

#[test]
fn next_waypoint_is_the_one_after_the_closest() {
    let path = vec![GridPoint::new(0, 0), GridPoint::new(1, 0), GridPoint::new(2, 0)];
    assert_eq!(next_waypoint(&path, 120, 10, 100), GridPoint::new(2, 0));
    assert_eq!(next_waypoint(&path, 0, 0, 100), GridPoint::new(1, 0));
}

#[test]
fn next_waypoint_at_the_end_stays_on_the_last() {
    let path = vec![GridPoint::new(0, 0), GridPoint::new(1, 0), GridPoint::new(2, 0)];
    assert_eq!(next_waypoint(&path, 210, 0, 100), GridPoint::new(2, 0));
    let single = vec![GridPoint::new(4, 4)];
    assert_eq!(next_waypoint(&single, -500, 700, 100), GridPoint::new(4, 4));
}

#[test]
fn closest_point_picks_nearest_gold() {
    let gold = vec![GridPoint::new(5, 5), GridPoint::new(1, 1), GridPoint::new(9, 0)];
    assert_eq!(closest_point(&gold, 120, 130, 100), Some(GridPoint::new(1, 1)));
    assert_eq!(closest_point(&gold, 480, 520, 100), Some(GridPoint::new(5, 5)));
}

#[test]
fn closest_point_of_nothing_is_none() {
    let gold: Vec<GridPoint> = Vec::new();
    assert_eq!(closest_point(&gold, 0, 0, 100), None);
}

#[test]
fn bad_modifier_rolls_cycle_through_variants() {
    assert_eq!(BadModifier::random(0), BadModifier::Crate);
    assert_eq!(BadModifier::random(1), BadModifier::Tree);
    assert_eq!(BadModifier::random(2), BadModifier::BrokenChain);
    assert_eq!(BadModifier::random(3), BadModifier::Crate);
    assert_eq!(GoodModifier::random(0), GoodModifier::Glue);
    assert_eq!(GoodModifier::random(1), GoodModifier::FoolsGold);
    assert_eq!(GoodModifier::random(7), GoodModifier::FoolsGold);
}

#[test]
fn modifier_texts() {
    assert_eq!(BadModifier::Crate.get_text(), "Crates");
    assert_eq!(BadModifier::Tree.get_text(), "Tree");
    assert_eq!(BadModifier::BrokenChain.get_text(), "Broken Chain");
    assert_eq!(GoodModifier::Glue.get_text(), "Glue Puddle");
    assert_eq!(GoodModifier::FoolsGold.get_text(), "Fool's Gold");
    assert_eq!(
        BadModifier::Crate.get_explanation(),
        "Spawn crates that block the path of the pirates"
    );
    assert_eq!(
        GoodModifier::Glue.get_explanation(),
        "Spawn a glue puddle that slows the pirates down"
    );
}
