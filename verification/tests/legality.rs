use chain_lockers::grid::GridPoint;
use chain_lockers::legality::PathLegalityChecker;

#[test]
fn chain_on_the_only_route_is_rejected() {
    // a 6 x 1 corridor: the single row is the only path
    let current: Vec<GridPoint> = Vec::new();
    let chain = vec![GridPoint::new(2, 0)];
    let start = GridPoint::new(0, 0);
    let end = GridPoint::new(5, 0);
    let gap = GridPoint::new(5, 0);
    assert!(PathLegalityChecker::would_block(&current, &chain, 5, 1, gap, start, end));
}

#[test]
fn chain_off_the_route_is_accepted() {
    // a 6 x 2 area: a chain on the upper row leaves the lower row open
    let current: Vec<GridPoint> = Vec::new();
    let chain = vec![GridPoint::new(2, 1), GridPoint::new(3, 1)];
    let start = GridPoint::new(0, 0);
    let end = GridPoint::new(5, 0);
    let gap = GridPoint::new(5, 0);
    assert!(!PathLegalityChecker::would_block(&current, &chain, 5, 2, gap, start, end));
}

#[test]
fn chain_sealing_both_rows_is_rejected() {
    let current: Vec<GridPoint> = Vec::new();
    let chain = vec![GridPoint::new(2, 0), GridPoint::new(2, 1)];
    let start = GridPoint::new(0, 0);
    let end = GridPoint::new(5, 0);
    let gap = GridPoint::new(5, 0);
    assert!(PathLegalityChecker::would_block(&current, &chain, 5, 2, gap, start, end));
}

#[test]
fn rollback_scenario_unique_route_after_existing_chains() {
    // existing obstacles leave exactly one corridor along row 0
    let current = vec![
        GridPoint::new(1, 1),
        GridPoint::new(2, 1),
        GridPoint::new(3, 1),
        GridPoint::new(4, 1),
    ];
    let start = GridPoint::new(0, 0);
    let end = GridPoint::new(5, 0);
    let gap = GridPoint::new(5, 0);
    // a new chain on that unique route seals it
    let on_route = vec![GridPoint::new(3, 0)];
    assert!(PathLegalityChecker::would_block(&current, &on_route, 5, 2, gap, start, end));
    // a new chain elsewhere leaves the route open
    let off_route = vec![GridPoint::new(0, 1)];
    assert!(!PathLegalityChecker::would_block(&current, &off_route, 5, 2, gap, start, end));
}

#[test]
fn route_exists_matches_would_block_on_empty_candidate() {
    let current = vec![GridPoint::new(2, 0), GridPoint::new(2, 1)];
    let none: Vec<GridPoint> = Vec::new();
    let start = GridPoint::new(0, 0);
    let end = GridPoint::new(4, 0);
    let gap = GridPoint::new(4, 0);
    let open = PathLegalityChecker::route_exists(&current, 4, 2, gap, start, end);
    let blocks = PathLegalityChecker::would_block(&current, &none, 4, 2, gap, start, end);
    assert_eq!(open, !blocks);
    assert!(!open);
}

#[test]
fn legal_cells_exclude_occupied_and_severing_cells() {
    // 4 x 2 area, start (0,0), end (4,0) at the gap mouth; (2,0) occupied
    let current = vec![GridPoint::new(2, 0)];
    let start = GridPoint::new(0, 0);
    let end = GridPoint::new(4, 0);
    let gap = GridPoint::new(4, 0);
    let cells = PathLegalityChecker::legal_placement_cells(&current, 4, 2, gap, start, end);
    assert!(!cells.contains(&GridPoint::new(2, 0)), "occupied cell offered");
    // blocking (2,1) next to the occupied (2,0) would cut both rows
    assert!(!cells.contains(&GridPoint::new(2, 1)), "severing cell offered");
    // the goal mouth (3,0) is the only way into the gap, so it severs too
    assert!(!cells.contains(&GridPoint::new(3, 0)), "severing cell offered");
    // blocking (1,0) still leaves the detour over row 1
    assert!(cells.contains(&GridPoint::new(1, 0)));
    for c in cells.iter() {
        let one = vec![*c];
        assert!(
            !PathLegalityChecker::would_block(&current, &one, 4, 2, gap, start, end),
            "offered cell {:?} severs the route",
            c
        );
    }
}

#[test]
fn empty_legal_set_reports_none_instead_of_crashing() {
    // a 3 x 1 corridor: blocking any interior cell severs the route
    let current: Vec<GridPoint> = Vec::new();
    let start = GridPoint::new(0, 0);
    let end = GridPoint::new(3, 0);
    let gap = GridPoint::new(3, 0);
    let cells = PathLegalityChecker::legal_placement_cells(&current, 3, 1, gap, start, end);
    assert!(cells.is_empty());
    assert_eq!(PathLegalityChecker::pick_placement(&cells, 17), None);
}

#[test]
fn pick_placement_uses_the_roll_modulo_len() {
    let cells = vec![GridPoint::new(1, 0), GridPoint::new(2, 0), GridPoint::new(3, 0)];
    assert_eq!(PathLegalityChecker::pick_placement(&cells, 0), Some(GridPoint::new(1, 0)));
    assert_eq!(PathLegalityChecker::pick_placement(&cells, 4), Some(GridPoint::new(2, 0)));
    assert_eq!(PathLegalityChecker::pick_placement(&cells, 11), Some(GridPoint::new(3, 0)));
}

#[test]
fn free_cells_are_the_unoccupied_interior() {
    let current = vec![GridPoint::new(1, 0)];
    let cells = PathLegalityChecker::free_cells(&current, 3, 2);
    assert_eq!(cells.len(), 3);
    assert!(cells.contains(&GridPoint::new(1, 1)));
    assert!(cells.contains(&GridPoint::new(2, 0)));
    assert!(cells.contains(&GridPoint::new(2, 1)));
    assert!(!cells.contains(&GridPoint::new(1, 0)), "occupied cell offered");
    assert!(!cells.contains(&GridPoint::new(0, 0)), "entry column offered");
}
