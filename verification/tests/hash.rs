use big_space::grid::cell::CellCoord;
use big_space::hash::component::CellId;
use big_space::hash::map::{entities_of, GridHashMap};
use bevy_platform::collections::HashSet;

const ROOT: u64 = 1;
const CHILD_GRID: u64 = 2;

fn id(parent: u64, x: i64, y: i64, z: i64) -> CellId {
    CellId::from_parent(parent, &CellCoord::new(x, y, z))
}

#[test]
fn mod_entity_despawn() {
    let entity = 10u64;
    let hash = id(ROOT, 0, 0, 0);
    let mut map = GridHashMap::new();
    map.update(&vec![], &vec![(entity, hash)]);
    assert!(map.get(&hash).is_some());

    map.update(&vec![entity], &vec![]);
    assert!(map.get(&hash).is_none());
}

#[test]
fn mod_get_hash() {
    let (a, b, c) = (10u64, 11u64, 12u64);
    let (x, y, z) = (20u64, 21u64, 22u64);
    let ha = id(ROOT, 0, 1, 2);
    let hb = id(ROOT, 0, 1, 2);
    let hc = id(ROOT, 5, 5, 5);
    let hx = id(CHILD_GRID, 0, 1, 2);
    let hy = id(CHILD_GRID, 0, 1, 2);
    let hz = id(CHILD_GRID, 5, 5, 5);

    let mut map = GridHashMap::new();
    map.update(&vec![], &vec![(a, ha), (b, hb), (c, hc), (x, hx), (y, hy), (z, hz)]);

    assert_eq!(ha, hb, "Same parent, same cell");
    assert_ne!(ha, hc, "Same parent, different cell");
    assert_eq!(hx, hy, "Same parent, same cell");
    assert_ne!(hx, hz, "Same parent, different cell");
    assert_ne!(ha, hx, "Same cell, different parent");

    let entities = &map.get(&ha).unwrap().entities;
    assert!(entities.contains(&a));
    assert!(entities.contains(&b));
    assert!(!entities.contains(&c));
    assert!(!entities.contains(&x));
    assert!(!entities.contains(&y));
    assert!(!entities.contains(&z));
}

#[test]
fn mod_neighbors() {
    let (a, b, c) = (10u64, 11u64, 12u64);
    let mut map = GridHashMap::new();
    map.update(
        &vec![],
        &vec![(a, id(ROOT, 0, 0, 0)), (b, id(ROOT, 1, 1, 1)), (c, id(ROOT, 2, 2, 2))],
    );

    let zero = id(ROOT, 0, 0, 0);
    let entry = map.get(&zero).unwrap();
    let neighbors: HashSet<u64> = entities_of(&map.nearby(entry)).into_iter().collect();
    assert!(neighbors.contains(&a));
    assert!(neighbors.contains(&b));
    assert!(!neighbors.contains(&c));

    let flooded: HashSet<u64> = map
        .flood(&zero, None)
        .iter()
        .flat_map(|n| n.entities())
        .collect();
    assert!(flooded.contains(&a));
    assert!(flooded.contains(&b));
    assert!(flooded.contains(&c));
}

#[test]
fn mod_query_filters() {
    // Three maps, as with three filters: all entities, players only, and non-players only.
    let player = 10u64;
    let others = [11u64, 12u64];
    let zero = id(ROOT, 0, 0, 0);

    let mut all = GridHashMap::new();
    all.update(&vec![], &vec![(player, zero), (others[0], zero), (others[1], zero)]);
    let mut players = GridHashMap::new();
    players.update(&vec![], &vec![(player, zero)]);
    let mut non_players = GridHashMap::new();
    non_players.update(&vec![], &vec![(others[0], zero), (others[1], zero)]);

    assert_eq!(
        all.get(&zero).unwrap().entities.iter().count(),
        3,
        "There are a total of 3 spatial entities"
    );
    assert_eq!(
        players.get(&zero).unwrap().entities.iter().count(),
        1,
        "There is only one entity with the Player component"
    );
    assert_eq!(
        non_players.get(&zero).unwrap().entities.iter().count(),
        2,
        "There are two entities without the player component"
    );
}

#[test]
fn spatial_map_changed_cell_tracking() {
    let (a, b, c) = (10u64, 11u64, 12u64);
    let a_hash_t0 = id(ROOT, 0, 0, 0);
    let b_hash_t0 = id(ROOT, 1, 1, 1);
    let c_hash_t0 = id(ROOT, 2, 2, 2);
    let mut map = GridHashMap::new();
    map.update(&vec![], &vec![(a, a_hash_t0), (b, b_hash_t0), (c, c_hash_t0)]);
    assert!(map.just_inserted().contains(&a_hash_t0));
    assert!(map.just_inserted().contains(&b_hash_t0));
    assert!(map.just_inserted().contains(&c_hash_t0));

    // `a` moves one cell along z; `b` is recentered far along z, as by a large translation.
    let a_hash_t1 = id(ROOT, 0, 0, 1);
    let b_hash_t1 = id(ROOT, 1, 1, 1 + 5_000_000);
    let c_hash_t1 = c_hash_t0;
    map.update(&vec![], &vec![(a, a_hash_t1), (b, b_hash_t1)]);

    assert!(map.just_removed().contains(&a_hash_t0));
    assert!(map.just_removed().contains(&b_hash_t0));
    assert!(!map.just_removed().contains(&c_hash_t0));

    assert!(map.just_inserted().contains(&a_hash_t1));
    assert!(map.just_inserted().contains(&b_hash_t1));
    assert!(!map.just_inserted().contains(&c_hash_t1));
}

#[test]
fn cell_ids_touch_their_neighbors() {
    // Each occupied cell lists the occupied cells around it, and only those.
    let mut map = GridHashMap::new();
    map.update(
        &vec![],
        &vec![(1, id(ROOT, 0, 0, 0)), (2, id(ROOT, 1, 0, 0)), (3, id(ROOT, 3, 0, 0))],
    );
    let e0 = map.get(&id(ROOT, 0, 0, 0)).unwrap();
    assert_eq!(e0.occupied_neighbors, vec![id(ROOT, 1, 0, 0)]);
    let e1 = map.get(&id(ROOT, 1, 0, 0)).unwrap();
    assert_eq!(e1.occupied_neighbors, vec![id(ROOT, 0, 0, 0)]);
    let e3 = map.get(&id(ROOT, 3, 0, 0)).unwrap();
    assert!(e3.occupied_neighbors.is_empty());
}

#[test]
fn adjacent_lists_the_cube_around_a_cell() {
    let center = id(ROOT, 0, 0, 0);
    let adjacent = center.adjacent(1);
    assert_eq!(adjacent.len(), 26);
    assert!(!adjacent.contains(&center));
    assert_eq!(adjacent[0], id(ROOT, -1, -1, -1));
    assert_eq!(adjacent[25], id(ROOT, 1, 1, 1));
    assert_eq!(center.adjacent(2).len(), 124);
}

#[test]
fn flood_respects_max_depth() {
    let mut map = GridHashMap::new();
    map.update(
        &vec![],
        &vec![(1, id(ROOT, 0, 0, 0)), (2, id(ROOT, 1, 0, 0)), (3, id(ROOT, 2, 0, 0))],
    );
    let all = map.flood(&id(ROOT, 0, 0, 0), None);
    assert_eq!(all.len(), 3);
    assert_eq!(all[0].0, id(ROOT, 0, 0, 0));
    let near = map.flood(&id(ROOT, 0, 0, 0), Some(1));
    assert_eq!(near.len(), 2);
    assert_eq!(near[1].0, id(ROOT, 1, 0, 0));
}

#[test]
fn flood_depth_is_chebyshev_in_negative_directions() {
    let mut map = GridHashMap::new();
    map.update(
        &vec![],
        &vec![(1, id(ROOT, 0, 0, 0)), (2, id(ROOT, -1, 0, 0)), (3, id(ROOT, -2, 0, 0))],
    );
    let near = map.flood(&id(ROOT, 0, 0, 0), Some(1));
    assert_eq!(near.len(), 2);
    assert_eq!(near[0].0, id(ROOT, 0, 0, 0));
    assert_eq!(near[1].0, id(ROOT, -1, 0, 0));
    let none = map.flood(&id(ROOT, 0, 0, 0), Some(-1));
    assert_eq!(none.len(), 0);
}

#[test]
fn flood_is_breadth_first() {
    // A line of cells along x, seeded in the middle: the two cells at distance one come before
    // either cell at distance two.
    let mut map = GridHashMap::new();
    let cells: Vec<(u64, CellId)> = (-2..=2).map(|x| ((x + 10) as u64, id(ROOT, x, 0, 0))).collect();
    map.update(&vec![], &cells);
    let order: Vec<i64> = map.flood(&id(ROOT, 0, 0, 0), None).iter().map(|n| n.0.coord().x).collect();
    assert_eq!(order.len(), 5);
    assert_eq!(order[0], 0);
    let first_two: HashSet<i64> = order[1..3].iter().copied().collect();
    assert!(first_two.contains(&-1) && first_two.contains(&1));
    let last_two: HashSet<i64> = order[3..5].iter().copied().collect();
    assert!(last_two.contains(&-2) && last_two.contains(&2));
}

#[test]
fn within_cube_finds_occupied_cells() {
    let mut map = GridHashMap::new();
    map.update(
        &vec![],
        &vec![(1, id(ROOT, 0, 0, 0)), (2, id(ROOT, 2, 0, 0)), (3, id(ROOT, 9, 0, 0))],
    );
    let found = map.within_cube(&id(ROOT, 0, 0, 0), 2);
    let entities: HashSet<u64> = entities_of(&found).into_iter().collect();
    assert_eq!(found.len(), 2);
    assert!(entities.contains(&1));
    assert!(entities.contains(&2));
    assert!(!entities.contains(&3));
}

#[test]
fn moving_an_entity_leaves_it_in_one_cell() {
    let mut map = GridHashMap::new();
    map.update(&vec![], &vec![(7, id(ROOT, 0, 0, 0))]);
    map.update(&vec![], &vec![(7, id(ROOT, 4, 0, 0))]);
    assert!(!map.contains(&id(ROOT, 0, 0, 0)));
    assert!(map.get(&id(ROOT, 4, 0, 0)).unwrap().entities.contains(&7));
}

#[test]
fn pre_hash_depends_on_grid_and_cell() {
    let a = id(ROOT, 1, 2, 3);
    let b = id(ROOT, 1, 2, 3);
    assert_eq!(a.pre_hash(), b.pre_hash());
    assert_eq!(a.grid(), ROOT);
    assert_eq!(a.coord(), CellCoord::new(1, 2, 3));
    assert!(a.fast_eq(&b));
    assert!(!a.fast_eq(&id(ROOT, 1, 2, 4)));
}

#[test]
fn refreshing_a_cell_id_reports_changes() {
    let mut cell = id(ROOT, 1, 2, 3);
    assert!(!cell.refresh(ROOT, &CellCoord::new(1, 2, 3)));
    assert!(cell.refresh(ROOT, &CellCoord::new(1, 2, 4)));
    assert_eq!(cell, id(ROOT, 1, 2, 4));
    assert!(cell.refresh(CHILD_GRID, &CellCoord::new(1, 2, 4)));
    assert_eq!(cell.grid(), CHILD_GRID);
}
