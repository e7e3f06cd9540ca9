use big_space::collections::EntitySet;
use big_space::floating_origins::BigSpace;
use big_space::grid::local_origin::{plan_local_origins, OriginStep};
use big_space::precision::GridPrecision;
use big_space::grid::propagation::{is_low_precision_root, needs_recompute, subtree_clean, PropagationFlags};
use big_space::stationary::{mark_ancestor_grids, mark_dirty_subtrees, stationary_to_initialize, GridDirtyTick};
use big_space::validation::{
    check_forest, validate_hierarchy, ComponentFlags, HierarchyEntity, HierarchySnapshot, NodeKind, ValidHierarchyNode,
};
use std::collections::HashMap;

fn node(entity: u64, components: ComponentFlags, children: Vec<usize>) -> HierarchyEntity {
    HierarchyEntity { entity, components, children }
}

fn root_grid() -> ComponentFlags {
    ComponentFlags { big_space: true, grid: true, global_transform: true, ..Default::default() }
}

fn high_precision_child() -> ComponentFlags {
    ComponentFlags {
        cell_coord: true,
        transform: true,
        global_transform: true,
        child_of: true,
        ..Default::default()
    }
}

#[test]
fn valid_hierarchy_reports_nothing() {
    let world = HierarchySnapshot {
        nodes: vec![
            node(10, root_grid(), vec![1, 2]),
            node(11, high_precision_child(), vec![]),
            node(12, ComponentFlags { child_of: true, ..Default::default() }, vec![]),
        ],
        roots: vec![0],
    };
    let mut errors = EntitySet::default();
    let reports = validate_hierarchy(NodeKind::SpatialHierarchyRoot, &world, &mut errors);
    assert!(reports.is_empty());
    assert!(errors.is_empty());
}

#[test]
fn invalid_child_is_reported_once() {
    // A transform without a global transform matches no kind allowed under a root grid.
    let bad = ComponentFlags { transform: true, child_of: true, ..Default::default() };
    let world = HierarchySnapshot {
        nodes: vec![node(10, root_grid(), vec![1, 2]), node(11, bad, vec![]), node(12, high_precision_child(), vec![])],
        roots: vec![0],
    };
    let mut errors = EntitySet::default();
    let reports = validate_hierarchy(NodeKind::SpatialHierarchyRoot, &world, &mut errors);
    assert_eq!(reports, vec![(1, NodeKind::RootFrame)]);
    assert!(errors.contains(&11));

    let again = validate_hierarchy(NodeKind::SpatialHierarchyRoot, &world, &mut errors);
    assert!(again.is_empty());
}

#[test]
fn children_of_bad_entities_are_not_visited() {
    let bad = ComponentFlags { cell_coord: true, ..Default::default() };
    let world = HierarchySnapshot {
        nodes: vec![node(10, bad, vec![1]), node(11, bad, vec![])],
        roots: vec![0],
    };
    let mut errors = EntitySet::default();
    let reports = validate_hierarchy(NodeKind::SpatialHierarchyRoot, &world, &mut errors);
    assert_eq!(reports, vec![(0, NodeKind::SpatialHierarchyRoot)]);
}

#[test]
fn node_kinds_match_their_components() {
    assert!(NodeKind::RootFrame.match_self(&root_grid()));
    assert!(!NodeKind::RootFrame.match_self(&high_precision_child()));
    assert!(NodeKind::ChildSpatialHighPrecision.match_self(&high_precision_child()));
    assert!(NodeKind::AnyNonSpatial.match_self(&ComponentFlags::default()));
    assert_eq!(
        NodeKind::SpatialHierarchyRoot.allowed_child_nodes(),
        vec![NodeKind::RootFrame, NodeKind::RootSpatialLowPrecision, NodeKind::AnyNonSpatial]
    );
    assert_eq!(NodeKind::ChildFrame.name(), "Non-root Grid");
}

#[test]
fn marking_walks_up_through_grids() {
    // 3 is a child of grid 2, itself a child of grid 1; entity 9 is not a grid.
    let mut dirty: HashMap<u64, u32> = HashMap::new();
    dirty.insert(1, 0);
    dirty.insert(2, 0);
    let mut parents: HashMap<u64, u64> = HashMap::new();
    parents.insert(3, 2);
    parents.insert(2, 1);
    parents.insert(1, 9);
    mark_ancestor_grids(2, 5, &mut dirty, &parents);
    assert_eq!(dirty[&2], 5);
    assert_eq!(dirty[&1], 5);
    assert_eq!(dirty.len(), 2);
}

#[test]
fn marking_stops_at_a_grid_marked_this_tick() {
    let mut dirty: HashMap<u64, u32> = HashMap::new();
    dirty.insert(1, 0);
    dirty.insert(2, 5);
    dirty.insert(3, 0);
    let mut parents: HashMap<u64, u64> = HashMap::new();
    parents.insert(3, 2);
    parents.insert(2, 1);
    mark_ancestor_grids(3, 5, &mut dirty, &parents);
    assert_eq!(dirty[&3], 5);
    assert_eq!(dirty[&2], 5);
    assert_eq!(dirty[&1], 0);
}

#[test]
fn dirty_subtrees_mark_parents_and_changed_grids() {
    let mut dirty: HashMap<u64, u32> = HashMap::new();
    dirty.insert(1, 0);
    dirty.insert(2, 0);
    dirty.insert(4, 0);
    let mut parents: HashMap<u64, u64> = HashMap::new();
    parents.insert(2, 1);
    parents.insert(7, 2);
    mark_dirty_subtrees(8, &vec![2], &vec![4], &mut dirty, &parents);
    assert_eq!(dirty[&1], 8);
    assert_eq!(dirty[&2], 8);
    assert_eq!(dirty[&4], 8);
}

#[test]
fn dirty_tick_compares_with_wraparound() {
    assert!(GridDirtyTick(10).is_dirty(5, 12));
    assert!(!GridDirtyTick(4).is_dirty(5, 12));
    assert!(!GridDirtyTick(5).is_dirty(5, 12));
    // The counter wrapped between the last run and this one.
    assert!(GridDirtyTick(2).is_dirty(u32::MAX - 1, 3));
}

#[test]
fn precision_wraps_at_the_type_bounds() {
    assert_eq!(GridPrecision::wrapping_add(i8::MAX, 1), i8::MIN);
    assert_eq!(GridPrecision::wrapping_sub(i8::MIN, 1), i8::MAX);
    assert_eq!(GridPrecision::wrapping_add(100i64, 23), 123);
    assert_eq!(GridPrecision::mul(-7i32, 6), -42);
    assert_eq!(<i128 as GridPrecision>::zero(), 0);
    assert_eq!(<i16 as GridPrecision>::one(), 1);
    assert_eq!(GridPrecision::wrapping_sub(i128::MIN, 1), i128::MAX);
}

#[test]
fn big_space_gets_its_one_floating_origin() {
    let spaces = vec![1u64, 2u64, 3u64];
    // Space 1 holds origin 10, space 2 holds two origins, space 3 none; origin 13 has no parent.
    let origins = vec![(10u64, Some(1u64)), (11, Some(2)), (12, Some(2)), (13, None)];
    let found = BigSpace::find_floating_origin(&spaces, &origins);
    assert_eq!(found, vec![(Some(10), 1), (None, 2), (None, 0)]);
}

#[test]
fn floating_origin_outside_the_space_is_rejected() {
    let space = BigSpace { floating_origin: Some(10) };
    assert_eq!(space.validate_floating_origin(1, Some(1)), Some(10));
    assert_eq!(space.validate_floating_origin(1, Some(2)), None);
    assert_eq!(space.validate_floating_origin(1, None), None);
    assert_eq!(BigSpace::default().validate_floating_origin(1, Some(1)), None);
}

fn grid_maps(edges: &[(u64, u64)], grids: &[u64]) -> (HashMap<u64, u64>, HashMap<u64, Vec<u64>>) {
    let mut parents = HashMap::new();
    let mut children: HashMap<u64, Vec<u64>> = grids.iter().map(|g| (*g, Vec::new())).collect();
    for (parent, child) in edges {
        parents.insert(*child, *parent);
        children.get_mut(parent).unwrap().push(*child);
    }
    (parents, children)
}

#[test]
fn origin_is_carried_up_then_down() {
    // Grid 1 holds grids 2 and 3; grid 2 holds grid 4, where the floating origin is.
    let (parents, children) = grid_maps(&[(1, 2), (1, 3), (2, 4)], &[1, 2, 3, 4]);
    let (steps, exhausted) = plan_local_origins(4, &parents, &children);
    assert!(!exhausted);
    assert_eq!(
        steps,
        vec![
            OriginStep::ToParent { from: 4, to: 2 },
            OriginStep::ToParent { from: 2, to: 1 },
            OriginStep::ToChild { from: 1, to: 3 },
        ]
    );
}

#[test]
fn origin_reaches_every_child_grid() {
    // The origin's grid 1 is a root with two nested children.
    let (parents, children) = grid_maps(&[(1, 2), (2, 3), (1, 5)], &[1, 2, 3, 5]);
    let (steps, exhausted) = plan_local_origins(1, &parents, &children);
    assert!(!exhausted);
    assert_eq!(steps.len(), 3);
    assert_eq!(steps[0], OriginStep::ToChild { from: 1, to: 2 });
    assert!(steps.contains(&OriginStep::ToChild { from: 2, to: 3 }));
    assert!(steps.contains(&OriginStep::ToChild { from: 1, to: 5 }));
}

#[test]
fn too_deep_hierarchies_are_reported() {
    let grids: Vec<u64> = (0..1100).collect();
    let edges: Vec<(u64, u64)> = (1..1100).map(|g| (g - 1, g)).collect();
    let (parents, children) = grid_maps(&edges, &grids);
    let (_, exhausted) = plan_local_origins(1099, &parents, &children);
    assert!(exhausted);
}

#[test]
fn forests_are_recognized() {
    let good = HierarchySnapshot {
        nodes: vec![node(10, root_grid(), vec![1]), node(11, high_precision_child(), vec![])],
        roots: vec![0],
    };
    assert!(check_forest(&good));
    // An entity listed under two parents.
    let two_parents = HierarchySnapshot {
        nodes: vec![node(10, root_grid(), vec![2]), node(11, root_grid(), vec![2]), node(12, high_precision_child(), vec![])],
        roots: vec![0, 1],
    };
    assert!(!check_forest(&two_parents));
    // A root that is also a child.
    let root_child = HierarchySnapshot { nodes: vec![node(10, root_grid(), vec![0])], roots: vec![0] };
    assert!(!check_forest(&root_child));
    // An index out of range.
    let out_of_range = HierarchySnapshot { nodes: vec![node(10, root_grid(), vec![5])], roots: vec![0] };
    assert!(!check_forest(&out_of_range));
    // The same entity twice.
    let same_entity = HierarchySnapshot {
        nodes: vec![node(10, root_grid(), vec![]), node(10, root_grid(), vec![])],
        roots: vec![0, 1],
    };
    assert!(!check_forest(&same_entity));
}

#[test]
fn stationary_entities_initialize_after_a_frame() {
    let list = vec![(1u64, true), (2u64, false), (3u64, false)];
    assert_eq!(stationary_to_initialize(&list), vec![2, 3]);
}

#[test]
fn recompute_decisions() {
    let moved = PropagationFlags { transform_changed: true, ..Default::default() };
    assert!(needs_recompute(&moved));
    let clean = PropagationFlags { origin_unchanged: true, subtree_clean: true, cell_changed: true, ..Default::default() };
    assert!(!needs_recompute(&clean));
    let sleeping = PropagationFlags {
        origin_unchanged: true,
        transform_changed: true,
        stationary: true,
        stationary_initialized: true,
        ..Default::default()
    };
    assert!(!needs_recompute(&sleeping));
    let first_frame = PropagationFlags { origin_unchanged: true, stationary: true, ..Default::default() };
    assert!(needs_recompute(&first_frame));
    assert!(subtree_clean(Some(GridDirtyTick(3)), 5, 12));
    assert!(!subtree_clean(Some(GridDirtyTick(8)), 5, 12));
    assert!(!subtree_clean(None, 5, 12));
}

#[test]
fn low_precision_roots_sit_under_spatial_parents() {
    let child = ComponentFlags { transform: true, global_transform: true, child_of: true, ..Default::default() };
    let parent = high_precision_child();
    assert!(is_low_precision_root(&child, Some((parent, true))));
    assert!(!is_low_precision_root(&child, Some((parent, false))));
    assert!(!is_low_precision_root(&child, Some((ComponentFlags::default(), true))));
    assert!(!is_low_precision_root(&child, None));
    assert!(!is_low_precision_root(&high_precision_child(), Some((parent, true))));
}
