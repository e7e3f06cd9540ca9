use big_space::camera::{cell_box_distance_sq, nearest_partitions_in_grid, partitions_nearest_first};
use big_space::grid::cell::CellCoord;
use big_space::hash::component::CellId;
use big_space::hash::map::GridHashMap;
use big_space::partition::change_tracking::PartitionEntities;
use big_space::partition::map::PartitionLookup;
use big_space::partition::PartitionId;

const ROOT: u64 = 1;

fn cell(x: i64, y: i64, z: i64) -> CellId {
    CellId::from_parent(ROOT, &CellCoord::new(x, y, z))
}

/// One spatial hash with its partitions and the partition of each entity, updated frame by frame
/// as the plugins update them.
struct World {
    cells: GridHashMap,
    partitions: PartitionLookup,
    entities: PartitionEntities,
    next_entity: u64,
}

impl World {
    fn new() -> Self {
        World {
            cells: GridHashMap::new(),
            partitions: PartitionLookup::new(),
            entities: PartitionEntities::new(),
            next_entity: 100,
        }
    }

    fn entity(&mut self) -> u64 {
        self.next_entity += 1;
        self.next_entity
    }

    /// Runs one frame: `despawned` entities leave, `moved` entities (new or moving) take their cell.
    fn frame(&mut self, despawned: Vec<u64>, moved: Vec<(u64, CellId)>) {
        self.cells.update(&despawned, &moved);
        self.partitions.update(&self.cells);
        let mut changed: Vec<(u64, Option<CellId>)> = moved.iter().map(|(e, c)| (*e, Some(*c))).collect();
        changed.extend(despawned.iter().map(|e| (*e, None)));
        self.entities.update(&self.cells, &changed, &self.partitions);
    }

    fn idle(&mut self) {
        self.frame(vec![], vec![]);
    }

    fn pid(&self, c: &CellId) -> Option<PartitionId> {
        self.partitions.get(c).copied()
    }
}

#[test]
fn fresh_spawn_populates_map_without_changes() {
    let mut w = World::new();
    let e1 = w.entity();
    let e2 = w.entity();
    w.frame(vec![], vec![(e1, cell(0, 0, 0)), (e2, cell(10, 0, 0))]);

    assert!(w.entities.map.get(&e1).is_some());
    assert!(w.entities.map.get(&e2).is_some());
    let (from1, to1) = *w.entities.changed.get(&e1).expect("spawned entity should be in changed map");
    assert!(from1.is_none());
    assert!(to1.is_some());
    let (from2, to2) = *w.entities.changed.get(&e2).expect("spawned entity should be in changed map");
    assert!(from2.is_none());
    assert!(to2.is_some());
}

#[test]
fn moving_between_partitions_records_change() {
    let mut w = World::new();
    let a = w.entity();
    let b = w.entity();
    w.frame(vec![], vec![(a, cell(0, 0, 0)), (b, cell(100, 0, 0))]);

    let pid_a0 = w.pid(&cell(0, 0, 0)).unwrap();
    let pid_b = w.pid(&cell(100, 0, 0)).unwrap();
    assert_ne!(pid_a0, pid_b, "initial partitions must be distinct");

    w.frame(vec![], vec![(a, cell(100, 0, 0))]);

    let (from, to) = w.entities.changed.get(&a).copied().expect("A should have a recorded change");
    assert_eq!(from, Some(pid_a0));
    assert_eq!(to, Some(pid_b));
    assert_eq!(w.entities.map.get(&a).copied(), Some(pid_b));

    w.idle();
    assert!(w.entities.changed.get(&a).is_none());
}

#[test]
fn move_within_same_partition_no_change() {
    let mut w = World::new();
    let other = w.entity();
    let e = w.entity();
    w.frame(vec![], vec![(other, cell(0, 0, 0)), (e, cell(1, 0, 0))]);

    w.frame(vec![], vec![(e, cell(0, 0, 0))]);

    assert!(
        w.entities.changed.get(&e).is_none(),
        "No partition change expected within same partition"
    );
}

#[test]
fn remove_and_readd_triggers_partition_change() {
    let mut w = World::new();
    let mover = w.entity();
    let dest = w.entity();
    w.frame(vec![], vec![(mover, cell(0, 0, 0)), (dest, cell(50, 0, 0))]);

    let pid_from = w.pid(&cell(0, 0, 0)).unwrap();
    let pid_to = w.pid(&cell(50, 0, 0)).unwrap();
    assert_ne!(pid_from, pid_to);

    // The mover loses its cell identifier and gets it back in the destination cell.
    w.frame(vec![], vec![(mover, cell(50, 0, 0))]);

    let (from, to) = w.entities.changed.get(&mover).copied().expect("change expected after re-add");
    assert_eq!(from, Some(pid_from));
    assert_eq!(to, Some(pid_to));
}

#[test]
fn split_then_merge_back_same_frame_no_false_positive() {
    let mut w = World::new();
    let left = w.entity();
    let mid = w.entity();
    let right = w.entity();
    w.frame(vec![], vec![(left, cell(0, 0, 0)), (mid, cell(1, 0, 0)), (right, cell(2, 0, 0))]);

    // A connector appears at (1, 1, 0) in the frame that the middle entity is despawned.
    let connector = w.entity();
    w.frame(vec![mid], vec![(connector, cell(1, 1, 0))]);

    assert!(w.entities.changed.get(&left).is_none());
    assert!(w.entities.changed.get(&right).is_none());
}

#[test]
fn partition_split_records_changes_for_stationary_entities() {
    let mut w = World::new();
    let left = w.entity();
    let mid = w.entity();
    let right = w.entity();
    w.frame(vec![], vec![(left, cell(0, 0, 0)), (mid, cell(1, 0, 0)), (right, cell(2, 0, 0))]);
    for _ in 0..10 {
        w.idle();
    }

    let pid_left = w.pid(&cell(0, 0, 0)).unwrap();
    let pid_mid = w.pid(&cell(1, 0, 0)).unwrap();
    let pid_right = w.pid(&cell(2, 0, 0)).unwrap();
    assert_eq!(pid_left, pid_mid);
    assert_eq!(pid_mid, pid_right);

    w.frame(vec![mid], vec![]);
    let mut left_changed = w.entities.changed.contains_key(&left);
    let mut right_changed = w.entities.changed.contains_key(&right);
    let mut left_pid_entities = w.entities.map.get(&left).copied();
    let mut right_pid_entities = w.entities.map.get(&right).copied();
    for _ in 0..100 {
        w.idle();
        if w.entities.changed.contains_key(&left) {
            left_changed = true;
        }
        if w.entities.changed.contains_key(&right) {
            right_changed = true;
        }
        left_pid_entities = w.entities.map.get(&left).copied();
        right_pid_entities = w.entities.map.get(&right).copied();
    }

    let left_pid_actual = w.pid(&cell(0, 0, 0)).unwrap();
    let right_pid_actual = w.pid(&cell(2, 0, 0)).unwrap();
    assert_ne!(left_pid_actual, right_pid_actual, "Partitions should have split in PartitionLookup");
    assert_ne!(left_pid_entities, right_pid_entities, "Partitions should have split in PartitionEntities");
    assert!(left_changed || right_changed, "At least one entity should have recorded a partition change");
}

#[test]
fn partition_merge_records_changes_for_stationary_entities() {
    let mut w = World::new();
    let left = w.entity();
    let right = w.entity();
    w.frame(vec![], vec![(left, cell(0, 0, 0)), (right, cell(2, 0, 0))]);
    for _ in 0..10 {
        w.idle();
    }

    let left_pid_initial = *w.entities.map.get(&left).expect("left not mapped");
    let right_pid_initial = *w.entities.map.get(&right).expect("right not mapped");
    assert_ne!(left_pid_initial, right_pid_initial);

    let connector = w.entity();
    w.frame(vec![], vec![(connector, cell(1, 0, 0))]);
    let mut left_changed = w.entities.changed.contains_key(&left);
    let mut right_changed = w.entities.changed.contains_key(&right);
    let mut left_pid_entities = w.entities.map.get(&left).copied();
    let mut right_pid_entities = w.entities.map.get(&right).copied();
    for _ in 0..100 {
        w.idle();
        if w.entities.changed.contains_key(&left) {
            left_changed = true;
        }
        if w.entities.changed.contains_key(&right) {
            right_changed = true;
        }
        left_pid_entities = w.entities.map.get(&left).copied();
        right_pid_entities = w.entities.map.get(&right).copied();
    }

    assert_eq!(left_pid_entities, right_pid_entities, "Partitions should have merged in PartitionEntities");
    assert!(
        left_changed || right_changed,
        "At least one entity should have recorded a partition change during merge"
    );
}

#[test]
fn partitions_are_the_connected_groups_of_cells() {
    let mut w = World::new();
    let ids: Vec<u64> = (0..5).map(|_| w.entity()).collect();
    // Two groups: three cells in a diagonal line, and two cells far away.
    w.frame(
        vec![],
        vec![
            (ids[0], cell(0, 0, 0)),
            (ids[1], cell(1, 1, 1)),
            (ids[2], cell(2, 2, 2)),
            (ids[3], cell(10, 0, 0)),
            (ids[4], cell(10, 0, 1)),
        ],
    );
    let p0 = w.pid(&cell(0, 0, 0)).unwrap();
    assert_eq!(w.pid(&cell(1, 1, 1)), Some(p0));
    assert_eq!(w.pid(&cell(2, 2, 2)), Some(p0));
    let p1 = w.pid(&cell(10, 0, 0)).unwrap();
    assert_ne!(p0, p1);
    assert_eq!(w.pid(&cell(10, 0, 1)), Some(p1));
    assert_eq!(w.partitions.iter().len(), 2);
    let part = w.partitions.resolve(&p0).unwrap();
    assert_eq!(part.num_cells(), 3);
    assert_eq!(part.min(), CellCoord::new(0, 0, 0));
    assert_eq!(part.max(), CellCoord::new(2, 2, 2));
    assert!(part.contains(&cell(1, 1, 1)));
    assert!(!part.contains(&cell(10, 0, 0)));
    assert_eq!(part.grid(), ROOT);
}

#[test]
fn emptied_partition_disappears() {
    let mut w = World::new();
    let a = w.entity();
    w.frame(vec![], vec![(a, cell(3, 3, 3))]);
    let p = w.pid(&cell(3, 3, 3)).unwrap();
    assert!(w.partitions.resolve(&p).is_some());
    w.frame(vec![a], vec![]);
    assert!(w.partitions.resolve(&p).is_none());
    assert!(w.pid(&cell(3, 3, 3)).is_none());
    let (from, to) = w.entities.changed.get(&a).copied().unwrap();
    assert_eq!(from, Some(p));
    assert_eq!(to, None);
    assert!(w.entities.map.get(&a).is_none());
}

#[test]
fn split_keeps_the_identifier_on_the_larger_piece() {
    let mut w = World::new();
    let ids: Vec<u64> = (0..5).map(|_| w.entity()).collect();
    w.frame(
        vec![],
        vec![
            (ids[0], cell(0, 0, 0)),
            (ids[1], cell(1, 0, 0)),
            (ids[2], cell(2, 0, 0)),
            (ids[3], cell(3, 0, 0)),
            (ids[4], cell(4, 0, 0)),
        ],
    );
    let p = w.pid(&cell(0, 0, 0)).unwrap();
    // Removing the second cell leaves a piece of one cell and a piece of three.
    w.frame(vec![ids[1]], vec![]);
    assert_eq!(w.pid(&cell(3, 0, 0)), Some(p));
    let q = w.pid(&cell(0, 0, 0)).unwrap();
    assert_ne!(q, p);
    assert_eq!(w.entities.changed.get(&ids[0]).copied(), Some((Some(p), Some(q))));
    assert!(w.entities.changed.get(&ids[3]).is_none());
}

#[test]
fn partitions_are_searched_nearest_first() {
    let mut w = World::new();
    let ids: Vec<u64> = (0..3).map(|_| w.entity()).collect();
    w.frame(
        vec![],
        vec![(ids[0], cell(10, 0, 0)), (ids[1], cell(-3, 0, 0)), (ids[2], cell(0, 0, 50))],
    );
    let order = partitions_nearest_first(&w.partitions, &CellCoord::new(0, 0, 0));
    assert_eq!(order.len(), 3);
    assert_eq!(order[0], (w.pid(&cell(-3, 0, 0)).unwrap(), 9));
    assert_eq!(order[1], (w.pid(&cell(10, 0, 0)).unwrap(), 100));
    assert_eq!(order[2], (w.pid(&cell(0, 0, 50)).unwrap(), 2500));
}

#[test]
fn box_distance_is_zero_inside_the_box() {
    let min = CellCoord::new(-2, -2, -2);
    let max = CellCoord::new(2, 2, 2);
    assert_eq!(cell_box_distance_sq(&CellCoord::new(1, -1, 0), &min, &max), 0);
    assert_eq!(cell_box_distance_sq(&CellCoord::new(5, 0, -6), &min, &max), 9 + 16);
}

#[test]
fn moving_into_a_merged_cell_of_the_same_partition_records_no_change() {
    let mut w = World::new();
    let row: Vec<u64> = (0..4).map(|_| w.entity()).collect();
    let e = w.entity();
    let b = w.entity();
    w.frame(
        vec![],
        vec![
            (row[0], cell(0, 0, 0)),
            (row[1], cell(1, 0, 0)),
            (row[2], cell(2, 0, 0)),
            (row[3], cell(3, 0, 0)),
            (e, cell(3, 0, 0)),
            (b, cell(5, 0, 0)),
        ],
    );
    let p1 = w.pid(&cell(3, 0, 0)).unwrap();
    let p2 = w.pid(&cell(5, 0, 0)).unwrap();
    assert_ne!(p1, p2);

    // `e` moves into the cell of `b` while a connector merges `b`'s partition into its own.
    let connector = w.entity();
    w.frame(vec![], vec![(e, cell(5, 0, 0)), (connector, cell(4, 0, 0))]);

    assert_eq!(w.pid(&cell(5, 0, 0)), Some(p1));
    assert!(w.entities.changed.get(&e).is_none(), "e stayed in its partition");
    assert_eq!(w.entities.changed.get(&b).copied(), Some((Some(p2), Some(p1))));
    assert_eq!(w.entities.map.get(&e).copied(), Some(p1));
}

#[test]
fn a_walking_entity_keeps_its_partition() {
    let mut w = World::new();
    let e = w.entity();
    w.frame(vec![], vec![(e, cell(0, 0, 0))]);
    let p = w.pid(&cell(0, 0, 0)).unwrap();
    for x in 1..5 {
        w.frame(vec![], vec![(e, cell(x, 0, 0))]);
        assert_eq!(w.pid(&cell(x, 0, 0)), Some(p));
        assert!(w.entities.changed.get(&e).is_none());
    }
}

#[test]
fn partition_identifiers_are_handed_out_in_order() {
    let mut w = World::new();
    let ids: Vec<u64> = (0..4).map(|_| w.entity()).collect();
    for (k, id) in ids.iter().enumerate() {
        w.frame(vec![], vec![(*id, cell(k as i64, 0, 0))]);
    }
    assert_eq!(w.pid(&cell(0, 0, 0)).unwrap().id(), 0);
    assert_eq!(w.pid(&cell(3, 0, 0)).unwrap().id(), 0);
    w.frame(vec![ids[1]], vec![]);
    assert_eq!(w.pid(&cell(2, 0, 0)).unwrap().id(), 0);
    assert_eq!(w.pid(&cell(3, 0, 0)).unwrap().id(), 0);
    assert_eq!(w.pid(&cell(0, 0, 0)).unwrap().id(), 1);
}

#[test]
fn nearest_partitions_keep_the_grid_and_the_cap() {
    let mut w = World::new();
    let ids: Vec<u64> = (0..4).map(|_| w.entity()).collect();
    let other = CellId::from_parent(7, &CellCoord::new(1, 0, 0));
    w.frame(
        vec![],
        vec![(ids[0], cell(10, 0, 0)), (ids[1], cell(-3, 0, 0)), (ids[2], cell(0, 0, 50)), (ids[3], other)],
    );
    let near = nearest_partitions_in_grid(&w.partitions, &CellCoord::new(0, 0, 0), ROOT, 2);
    assert_eq!(near.len(), 2);
    assert_eq!(near[0], (w.pid(&cell(-3, 0, 0)).unwrap(), 9));
    assert_eq!(near[1], (w.pid(&cell(10, 0, 0)).unwrap(), 100));
    let all = nearest_partitions_in_grid(&w.partitions, &CellCoord::new(0, 0, 0), ROOT, 10);
    assert_eq!(all.len(), 3);
    assert_eq!(all[2], (w.pid(&cell(0, 0, 50)).unwrap(), 2500));
}
