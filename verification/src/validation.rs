//! Validation of high-precision transform hierarchies.
//!
//! Each entity of a hierarchy must be one of the kinds of node that its parent allows as a child.
//! The hierarchy is read into a [`HierarchySnapshot`]: for each entity, the components that decide
//! its kind and the indices of its children. [`validate_hierarchy`] walks it from the roots and
//! reports each entity that matches none of the kinds its parent allows.

use vstd::prelude::*;
use crate::collections::{EntitySet, entity_set, entity_set_contains, entity_set_insert};

verus! {

broadcast use vstd::std_specs::hash::group_hash_axioms;

/// Which of the components that decide the kind of a hierarchy node an entity carries.
#[derive(Clone, Copy, Debug, Default, PartialEq, Eq, Structural)]
pub struct ComponentFlags {
    /// The entity has a `CellCoord`.
    pub cell_coord: bool,
    /// The entity has a `Transform`.
    pub transform: bool,
    /// The entity has a `GlobalTransform`.
    pub global_transform: bool,
    /// The entity has a `BigSpace`.
    pub big_space: bool,
    /// The entity has a `Grid`.
    pub grid: bool,
    /// The entity has a `FloatingOrigin`.
    pub floating_origin: bool,
    /// The entity has a `ChildOf`.
    pub child_of: bool,
    /// The entity has a `LowPrecisionRoot`.
    pub low_precision_root: bool,
}

/// A kind of node in the hierarchy: which components it must have, must not have, and which
/// kinds of nodes its children can be.
pub trait ValidHierarchyNode: Copy + Sized {
    /// Whether an entity with these components is a node of this kind.
    spec fn matches(&self, components: ComponentFlags) -> bool;

    /// The kinds of nodes that children of this node may be, in the order they are tried.
    spec fn allowed_children(&self) -> Seq<Self>;

    /// The human-readable identifier of this kind.
    spec fn spec_name(&self) -> Seq<char>;

    /// A unique, human-readable identifier of this kind.
    fn name(&self) -> (r: &'static str)
        ensures
            r@ == self.spec_name(),
    ;

    /// Whether an entity with these components is a node of this kind.
    fn match_self(&self, components: &ComponentFlags) -> (r: bool)
        ensures
            r == self.matches(*components),
    ;

    /// The kinds of nodes that children of this node may be.
    fn allowed_child_nodes(&self) -> (r: Vec<Self>)
        ensures
            r@ == self.allowed_children(),
    ;
}

/// The kinds of nodes of a `big_space` hierarchy.
#[derive(Clone, Copy, Debug, PartialEq, Eq, Structural)]
pub enum NodeKind {
    /// The root of the whole hierarchy, parent of the entities that have no parent.
    SpatialHierarchyRoot,
    /// Any entity without spatial components.
    AnyNonSpatial,
    /// The root grid of a `BigSpace`.
    RootFrame,
    /// The root of a `Transform` hierarchy outside of any `BigSpace`.
    RootSpatialLowPrecision,
    /// A grid nested in another grid.
    ChildFrame,
    /// The root of a low-precision `Transform` hierarchy within a `BigSpace`.
    ChildRootSpatialLowPrecision,
    /// A low-precision spatial entity that has a parent.
    ChildSpatialLowPrecision,
    /// A high-precision spatial entity that has a parent.
    ChildSpatialHighPrecision,
}

/// The components an entity must have and must not have to be a node of kind `k`.
pub open spec fn kind_matches(k: NodeKind, c: ComponentFlags) -> bool {
    match k {
        NodeKind::SpatialHierarchyRoot => true,
        NodeKind::AnyNonSpatial => !c.cell_coord && !c.transform && !c.global_transform
            && !c.big_space && !c.grid && !c.floating_origin,
        NodeKind::RootFrame => c.big_space && c.grid && c.global_transform && !c.cell_coord
            && !c.transform && !c.child_of && !c.floating_origin,
        NodeKind::RootSpatialLowPrecision => c.transform && c.global_transform && !c.cell_coord
            && !c.big_space && !c.grid && !c.child_of && !c.floating_origin,
        NodeKind::ChildFrame => c.grid && c.cell_coord && c.transform && c.global_transform
            && c.child_of && !c.big_space,
        NodeKind::ChildRootSpatialLowPrecision => c.transform && c.global_transform && c.child_of
            && c.low_precision_root && !c.cell_coord && !c.big_space && !c.grid
            && !c.floating_origin,
        NodeKind::ChildSpatialLowPrecision => c.transform && c.global_transform && c.child_of
            && !c.cell_coord && !c.big_space && !c.grid && !c.floating_origin,
        NodeKind::ChildSpatialHighPrecision => c.cell_coord && c.transform && c.global_transform
            && c.child_of && !c.big_space && !c.grid,
    }
}

/// An entity without any spatial component: no cell, transform, global transform, big space,
/// grid or floating origin.
pub open spec fn non_spatial(c: ComponentFlags) -> bool {
    !c.cell_coord && !c.transform && !c.global_transform && !c.big_space && !c.grid && !c.floating_origin
}

/// The root grid of a big space: a big space with a grid and a global transform, and no cell,
/// transform, parent or floating origin.
pub open spec fn root_grid(c: ComponentFlags) -> bool {
    c.big_space && c.grid && c.global_transform && !c.cell_coord && !c.transform && !c.child_of && !c.floating_origin
}

/// A low-precision entity at the top of the tree, outside any big space: a transform and a global
/// transform, and no cell, big space, grid, parent or floating origin.
pub open spec fn top_low_precision(c: ComponentFlags) -> bool {
    c.transform && c.global_transform && !c.cell_coord && !c.big_space && !c.grid && !c.child_of && !c.floating_origin
}

/// A grid nested in another grid: a grid with a cell, a transform, a global transform and a
/// parent, and no big space.
pub open spec fn nested_grid(c: ComponentFlags) -> bool {
    c.grid && c.cell_coord && c.transform && c.global_transform && c.child_of && !c.big_space
}

/// A low-precision entity with a parent: a transform, a global transform and a parent, and no
/// cell, big space, grid or floating origin.
pub open spec fn nested_low_precision(c: ComponentFlags) -> bool {
    c.transform && c.global_transform && c.child_of && !c.cell_coord && !c.big_space && !c.grid && !c.floating_origin
}

/// A high-precision entity with a parent: a cell, a transform, a global transform and a parent,
/// and no big space or grid.
pub open spec fn nested_high_precision(c: ComponentFlags) -> bool {
    c.cell_coord && c.transform && c.global_transform && c.child_of && !c.big_space && !c.grid
}

/// What each kind of node accepts as a child, and as which kind, in terms of the child's
/// components:
/// - at the top of the tree: root grids, low-precision entities outside any big space, and
///   non-spatial entities;
/// - under a non-spatial entity: non-spatial entities only;
/// - under a root grid: nested grids, low-precision entities, high-precision entities and
///   non-spatial entities;
/// - under a nested grid: nested grids, roots of low-precision hierarchies (low-precision
///   entities marked as such), high-precision entities and non-spatial entities;
/// - under a high-precision entity: roots of low-precision hierarchies and non-spatial entities;
/// - under any low-precision entity: low-precision entities and non-spatial entities.
/// A big space is never accepted under another node.
pub proof fn lemma_allowed_children(c: ComponentFlags)
    ensures
        first_match(kind_children(NodeKind::SpatialHierarchyRoot), c) is Some
            <==> root_grid(c) || top_low_precision(c) || non_spatial(c),
        root_grid(c) ==> first_match(kind_children(NodeKind::SpatialHierarchyRoot), c) == Some(NodeKind::RootFrame),
        top_low_precision(c) ==> first_match(kind_children(NodeKind::SpatialHierarchyRoot), c)
            == Some(NodeKind::RootSpatialLowPrecision),
        non_spatial(c) ==> first_match(kind_children(NodeKind::SpatialHierarchyRoot), c) == Some(NodeKind::AnyNonSpatial),

        first_match(kind_children(NodeKind::AnyNonSpatial), c) is Some <==> non_spatial(c),
        non_spatial(c) ==> first_match(kind_children(NodeKind::AnyNonSpatial), c) == Some(NodeKind::AnyNonSpatial),

        first_match(kind_children(NodeKind::RootFrame), c) is Some
            <==> nested_grid(c) || nested_low_precision(c) || nested_high_precision(c) || non_spatial(c),
        nested_grid(c) ==> first_match(kind_children(NodeKind::RootFrame), c) == Some(NodeKind::ChildFrame),
        nested_low_precision(c) ==> first_match(kind_children(NodeKind::RootFrame), c)
            == Some(NodeKind::ChildSpatialLowPrecision),
        nested_high_precision(c) ==> first_match(kind_children(NodeKind::RootFrame), c)
            == Some(NodeKind::ChildSpatialHighPrecision),
        non_spatial(c) ==> first_match(kind_children(NodeKind::RootFrame), c) == Some(NodeKind::AnyNonSpatial),

        first_match(kind_children(NodeKind::RootSpatialLowPrecision), c) is Some
            <==> nested_low_precision(c) || non_spatial(c),
        nested_low_precision(c) ==> first_match(kind_children(NodeKind::RootSpatialLowPrecision), c)
            == Some(NodeKind::ChildSpatialLowPrecision),
        non_spatial(c) ==> first_match(kind_children(NodeKind::RootSpatialLowPrecision), c) == Some(NodeKind::AnyNonSpatial),

        first_match(kind_children(NodeKind::ChildFrame), c) is Some
            <==> nested_grid(c) || (nested_low_precision(c) && c.low_precision_root) || nested_high_precision(c)
                || non_spatial(c),
        nested_grid(c) ==> first_match(kind_children(NodeKind::ChildFrame), c) == Some(NodeKind::ChildFrame),
        nested_low_precision(c) && c.low_precision_root ==> first_match(kind_children(NodeKind::ChildFrame), c)
            == Some(NodeKind::ChildRootSpatialLowPrecision),
        nested_high_precision(c) ==> first_match(kind_children(NodeKind::ChildFrame), c)
            == Some(NodeKind::ChildSpatialHighPrecision),
        non_spatial(c) ==> first_match(kind_children(NodeKind::ChildFrame), c) == Some(NodeKind::AnyNonSpatial),

        first_match(kind_children(NodeKind::ChildRootSpatialLowPrecision), c) is Some
            <==> nested_low_precision(c) || non_spatial(c),
        nested_low_precision(c) ==> first_match(kind_children(NodeKind::ChildRootSpatialLowPrecision), c)
            == Some(NodeKind::ChildSpatialLowPrecision),
        non_spatial(c) ==> first_match(kind_children(NodeKind::ChildRootSpatialLowPrecision), c)
            == Some(NodeKind::AnyNonSpatial),

        first_match(kind_children(NodeKind::ChildSpatialLowPrecision), c) is Some
            <==> nested_low_precision(c) || non_spatial(c),
        nested_low_precision(c) ==> first_match(kind_children(NodeKind::ChildSpatialLowPrecision), c)
            == Some(NodeKind::ChildSpatialLowPrecision),
        non_spatial(c) ==> first_match(kind_children(NodeKind::ChildSpatialLowPrecision), c)
            == Some(NodeKind::AnyNonSpatial),

        first_match(kind_children(NodeKind::ChildSpatialHighPrecision), c) is Some
            <==> (nested_low_precision(c) && c.low_precision_root) || non_spatial(c),
        nested_low_precision(c) && c.low_precision_root ==> first_match(kind_children(NodeKind::ChildSpatialHighPrecision), c)
            == Some(NodeKind::ChildRootSpatialLowPrecision),
        non_spatial(c) ==> first_match(kind_children(NodeKind::ChildSpatialHighPrecision), c)
            == Some(NodeKind::AnyNonSpatial),

        forall|k: NodeKind| k != NodeKind::SpatialHierarchyRoot && c.big_space
            ==> #[trigger] first_match(kind_children(k), c) is None,
{
    reveal_with_fuel(first_match, 5);
    assert forall|k: NodeKind| k != NodeKind::SpatialHierarchyRoot && c.big_space
        implies #[trigger] first_match(kind_children(k), c) is None by {
        reveal_with_fuel(first_match, 5);
    }
}

/// The kinds of nodes that children of a node of kind `k` may be, in the order they are tried.
pub open spec fn kind_children(k: NodeKind) -> Seq<NodeKind> {
    match k {
        NodeKind::SpatialHierarchyRoot => seq![
            NodeKind::RootFrame,
            NodeKind::RootSpatialLowPrecision,
            NodeKind::AnyNonSpatial,
        ],
        NodeKind::AnyNonSpatial => seq![NodeKind::AnyNonSpatial],
        NodeKind::RootFrame => seq![
            NodeKind::ChildFrame,
            NodeKind::ChildSpatialLowPrecision,
            NodeKind::ChildSpatialHighPrecision,
            NodeKind::AnyNonSpatial,
        ],
        NodeKind::RootSpatialLowPrecision => seq![
            NodeKind::ChildSpatialLowPrecision,
            NodeKind::AnyNonSpatial,
        ],
        NodeKind::ChildFrame => seq![
            NodeKind::ChildFrame,
            NodeKind::ChildRootSpatialLowPrecision,
            NodeKind::ChildSpatialHighPrecision,
            NodeKind::AnyNonSpatial,
        ],
        NodeKind::ChildRootSpatialLowPrecision => seq![
            NodeKind::ChildSpatialLowPrecision,
            NodeKind::AnyNonSpatial,
        ],
        NodeKind::ChildSpatialLowPrecision => seq![
            NodeKind::ChildSpatialLowPrecision,
            NodeKind::AnyNonSpatial,
        ],
        NodeKind::ChildSpatialHighPrecision => seq![
            NodeKind::ChildRootSpatialLowPrecision,
            NodeKind::AnyNonSpatial,
        ],
    }
}

/// The human-readable identifier of each kind of node.
pub open spec fn kind_name(k: NodeKind) -> Seq<char> {
    match k {
        NodeKind::SpatialHierarchyRoot => "Root"@,
        NodeKind::AnyNonSpatial => "Any non-spatial entity"@,
        NodeKind::RootFrame => "Root of a BigSpace"@,
        NodeKind::RootSpatialLowPrecision =>
            "Root of a Transform hierarchy at the root of the tree outside of any BigSpace"@,
        NodeKind::ChildFrame => "Non-root Grid"@,
        NodeKind::ChildRootSpatialLowPrecision =>
            "Root of a low-precision Transform hierarchy, within a BigSpace"@,
        NodeKind::ChildSpatialLowPrecision => "Non-root low-precision spatial entity"@,
        NodeKind::ChildSpatialHighPrecision => "Non-root high precision spatial entity"@,
    }
}

impl ValidHierarchyNode for NodeKind {
    open spec fn spec_name(&self) -> Seq<char> {
        kind_name(*self)
    }

    open spec fn matches(&self, components: ComponentFlags) -> bool {
        kind_matches(*self, components)
    }

    open spec fn allowed_children(&self) -> Seq<NodeKind> {
        kind_children(*self)
    }

    fn name(&self) -> (r: &'static str) {
        match self {
            NodeKind::SpatialHierarchyRoot => "Root",
            NodeKind::AnyNonSpatial => "Any non-spatial entity",
            NodeKind::RootFrame => "Root of a BigSpace",
            NodeKind::RootSpatialLowPrecision =>
                "Root of a Transform hierarchy at the root of the tree outside of any BigSpace",
            NodeKind::ChildFrame => "Non-root Grid",
            NodeKind::ChildRootSpatialLowPrecision =>
                "Root of a low-precision Transform hierarchy, within a BigSpace",
            NodeKind::ChildSpatialLowPrecision => "Non-root low-precision spatial entity",
            NodeKind::ChildSpatialHighPrecision => "Non-root high precision spatial entity",
        }
    }

    fn match_self(&self, components: &ComponentFlags) -> (r: bool) {
        let c = *components;
        match self {
            NodeKind::SpatialHierarchyRoot => true,
            NodeKind::AnyNonSpatial => !c.cell_coord && !c.transform && !c.global_transform
                && !c.big_space && !c.grid && !c.floating_origin,
            NodeKind::RootFrame => c.big_space && c.grid && c.global_transform && !c.cell_coord
                && !c.transform && !c.child_of && !c.floating_origin,
            NodeKind::RootSpatialLowPrecision => c.transform && c.global_transform
                && !c.cell_coord && !c.big_space && !c.grid && !c.child_of && !c.floating_origin,
            NodeKind::ChildFrame => c.grid && c.cell_coord && c.transform && c.global_transform
                && c.child_of && !c.big_space,
            NodeKind::ChildRootSpatialLowPrecision => c.transform && c.global_transform
                && c.child_of && c.low_precision_root && !c.cell_coord && !c.big_space
                && !c.grid && !c.floating_origin,
            NodeKind::ChildSpatialLowPrecision => c.transform && c.global_transform && c.child_of
                && !c.cell_coord && !c.big_space && !c.grid && !c.floating_origin,
            NodeKind::ChildSpatialHighPrecision => c.cell_coord && c.transform
                && c.global_transform && c.child_of && !c.big_space && !c.grid,
        }
    }

    fn allowed_child_nodes(&self) -> (r: Vec<NodeKind>) {
        let r = match self {
            NodeKind::SpatialHierarchyRoot => vec![
                NodeKind::RootFrame,
                NodeKind::RootSpatialLowPrecision,
                NodeKind::AnyNonSpatial,
            ],
            NodeKind::AnyNonSpatial => vec![NodeKind::AnyNonSpatial],
            NodeKind::RootFrame => vec![
                NodeKind::ChildFrame,
                NodeKind::ChildSpatialLowPrecision,
                NodeKind::ChildSpatialHighPrecision,
                NodeKind::AnyNonSpatial,
            ],
            NodeKind::RootSpatialLowPrecision => vec![
                NodeKind::ChildSpatialLowPrecision,
                NodeKind::AnyNonSpatial,
            ],
            NodeKind::ChildFrame => vec![
                NodeKind::ChildFrame,
                NodeKind::ChildRootSpatialLowPrecision,
                NodeKind::ChildSpatialHighPrecision,
                NodeKind::AnyNonSpatial,
            ],
            NodeKind::ChildRootSpatialLowPrecision => vec![
                NodeKind::ChildSpatialLowPrecision,
                NodeKind::AnyNonSpatial,
            ],
            NodeKind::ChildSpatialLowPrecision => vec![
                NodeKind::ChildSpatialLowPrecision,
                NodeKind::AnyNonSpatial,
            ],
            NodeKind::ChildSpatialHighPrecision => vec![
                NodeKind::ChildRootSpatialLowPrecision,
                NodeKind::AnyNonSpatial,
            ],
        };
        proof {
            assert(r@ =~= kind_children(*self));
        }
        r
    }
}

/// An entity of a hierarchy, as validation sees it.
pub struct HierarchyEntity {
    /// The entity, by its bits.
    pub entity: u64,
    /// The components that decide its kind.
    pub components: ComponentFlags,
    /// The indices, in the snapshot, of its children.
    pub children: Vec<usize>,
}

/// The entities of a hierarchy, with the indices of those that have no parent.
pub struct HierarchySnapshot {
    /// The entities; each refers to its children by their index here.
    pub nodes: Vec<HierarchyEntity>,
    /// The indices of the entities that have no parent.
    pub roots: Vec<usize>,
}

/// The indices of the children of the entity at index `p`.
pub open spec fn children_of(w: &HierarchySnapshot, p: int) -> Seq<usize> {
    w.nodes@[p].children@
}

/// Whether the entity at index `c` is a child of the entity at index `p`.
pub open spec fn is_child(w: &HierarchySnapshot, p: int, c: usize) -> bool {
    0 <= p < w.nodes@.len() && children_of(w, p).contains(c)
}

/// The components of the entity at index `c`.
pub open spec fn components_of(w: &HierarchySnapshot, c: usize) -> ComponentFlags {
    w.nodes@[c as int].components
}

/// The entity at index `c`.
pub open spec fn entity_of(w: &HierarchySnapshot, c: usize) -> u64 {
    w.nodes@[c as int].entity
}

/// The snapshot describes a forest, as an entity hierarchy is: indices are in range, each entity
/// has at most one parent and appears once among its parent's children, entities without a
/// parent are listed once among the roots, and no two indices hold the same entity.
pub open spec fn is_forest(w: &HierarchySnapshot) -> bool {
    &&& w.roots@.no_duplicates()
    &&& forall|i: int| 0 <= i < w.roots@.len() ==> #[trigger] w.roots@[i] < w.nodes@.len()
    &&& forall|p: int| 0 <= p < w.nodes@.len() ==> (#[trigger] children_of(w, p)).no_duplicates()
    &&& forall|p: int, j: int| 0 <= p < w.nodes@.len() && 0 <= j < children_of(w, p).len()
        ==> #[trigger] children_of(w, p)[j] < w.nodes@.len()
    &&& forall|p: int, c: usize| #[trigger] is_child(w, p, c) ==> !w.roots@.contains(c)
    &&& forall|p: int, q: int, c: usize| #[trigger] is_child(w, p, c) && #[trigger] is_child(w, q, c) ==> p == q
    &&& forall|i: int, j: int| 0 <= i < w.nodes@.len() && 0 <= j < w.nodes@.len()
        && #[trigger] w.nodes@[i].entity == #[trigger] w.nodes@[j].entity ==> i == j
}

/// The first of `kinds` that an entity with these components matches, if any.
pub open spec fn first_match<V: ValidHierarchyNode>(kinds: Seq<V>, c: ComponentFlags) -> Option<V>
    decreases kinds.len(),
{
    if kinds.len() == 0 {
        None
    } else if kinds[0].matches(c) {
        Some(kinds[0])
    } else {
        first_match(kinds.drop_first(), c)
    }
}

/// The entity at index `c`, a child of a node of kind `parent`, is labelled as the first kind
/// allowed under `parent` that it matches, or found bad when it matches none.
pub open spec fn consistent<V: ValidHierarchyNode>(
    w: &HierarchySnapshot,
    parent: V,
    label: Map<usize, V>,
    bad: Set<usize>,
    c: usize,
) -> bool {
    match first_match(parent.allowed_children(), components_of(w, c)) {
        Some(k) => label.contains_key(c) && label[c] == k && !bad.contains(c),
        None => bad.contains(c) && !label.contains_key(c),
    }
}

/// `label` gives the kind of every entity reached from the roots through entities of a kind,
/// starting from `root` as the parent of the roots, and `bad` holds the entities so reached that
/// match none of the kinds that their parent allows. Nothing else is labelled or bad: each
/// labelled or bad entity is a root or the child of a labelled entity of smaller `depth`.
pub open spec fn is_labelling<V: ValidHierarchyNode>(
    w: &HierarchySnapshot,
    root: V,
    label: Map<usize, V>,
    bad: Set<usize>,
    depth: Map<usize, nat>,
) -> bool {
    &&& forall|i: int| 0 <= i < w.roots@.len() ==> #[trigger] consistent(w, root, label, bad, w.roots@[i])
    &&& forall|p: usize, c: usize| #![trigger label.contains_key(p), is_child(w, p as int, c)]
        label.contains_key(p) && is_child(w, p as int, c) ==> consistent(w, label[p], label, bad, c)
    &&& forall|x: usize| #![trigger label.contains_key(x)] #![trigger bad.contains(x)]
        label.contains_key(x) || bad.contains(x) ==> w.roots@.contains(x)
            || exists|p: usize| label.contains_key(p) && #[trigger] is_child(w, p as int, x) && depth[p] < depth[x]
}

/// The index of the parent of the entity at index `c`, when it has one.
pub open spec fn parent_of(w: &HierarchySnapshot, c: usize) -> int {
    choose|p: int| is_child(w, p, c)
}

/// The kind of the parent of the entity at index `c`: `root` for the roots.
pub open spec fn parent_kind<V: ValidHierarchyNode>(
    w: &HierarchySnapshot,
    root: V,
    label: Map<usize, V>,
    c: usize,
) -> V {
    if w.roots@.contains(c) {
        root
    } else {
        label[parent_of(w, c) as usize]
    }
}

/// The first of `kinds` that an entity with these components matches, if any.
fn first_matching<V: ValidHierarchyNode>(kinds: &Vec<V>, components: &ComponentFlags) -> (r: Option<V>)
    ensures
        r == first_match(kinds@, *components),
{
    let mut i: usize = 0;
    proof {
        assert(kinds@.skip(0) =~= kinds@);
    }
    while i < kinds.len()
        invariant
            0 <= i <= kinds.len(),
            first_match(kinds@, *components) == first_match(kinds@.skip(i as int), *components),
        decreases kinds.len() - i,
    {
        let k = kinds[i];
        if k.match_self(components) {
            return Some(k);
        }
        proof {
            assert(kinds@.skip(i as int).drop_first() =~= kinds@.skip(i + 1));
        }
        i += 1;
    }
    proof {
        assert(kinds@.skip(i as int).len() == 0);
    }
    None
}

/// The indices below `n`.
pub open spec fn indices_below(n: nat) -> Set<usize> {
    Set::new(|x: usize| x < n)
}

/// There are `n` indices below `n`.
pub proof fn lemma_indices_below(n: nat)
    requires
        n <= usize::MAX + 1,
    ensures
        indices_below(n).finite(),
        indices_below(n).len() == n,
    decreases n,
{
    if n == 0 {
        assert(indices_below(n) =~= Set::<usize>::empty());
    } else {
        lemma_indices_below((n - 1) as nat);
        assert(indices_below((n - 1) as nat).insert((n - 1) as usize) =~= indices_below(n));
    }
}

/// The list of entities that a pending step of the walk visits: the roots, or the children of
/// the entity at index `p`.
pub open spec fn list_of(w: &HierarchySnapshot, src: Option<usize>) -> Seq<usize> {
    match src {
        None => w.roots@,
        Some(p) => children_of(w, p as int),
    }
}

/// A pending step of the walk names its list and the kind of the parent of its entities.
pub open spec fn step_ok<V: ValidHierarchyNode>(
    w: &HierarchySnapshot,
    root: V,
    label: Map<usize, V>,
    e: (V, Option<usize>),
) -> bool {
    match e.1 {
        None => e.0 == root,
        Some(p) => p < w.nodes@.len() && label.contains_key(p) && label[p] == e.0,
    }
}

/// What holds between steps of the walk: the pending steps, the entities visited so far (those
/// labelled and those found bad), and the lists that are done.
pub open spec fn walk_inv<V: ValidHierarchyNode>(
    w: &HierarchySnapshot,
    root: V,
    stack: Seq<(V, Option<usize>)>,
    label: Map<usize, V>,
    bad: Set<usize>,
    visited: Set<usize>,
    depth: Map<usize, nat>,
) -> bool {
    &&& forall|j: int| 0 <= j < stack.len() ==> #[trigger] step_ok(w, root, label, stack[j])
    &&& forall|j: int, k: int| 0 <= j < k < stack.len() ==> #[trigger] stack[j].1 != #[trigger] stack[k].1
    &&& visited == label.dom().union(bad)
    &&& label.dom().disjoint(bad)
    &&& visited.subset_of(indices_below(w.nodes@.len()))
    &&& forall|j: int, i: int| 0 <= j < stack.len() && 0 <= i < list_of(w, stack[j].1).len()
        ==> !visited.contains(#[trigger] list_of(w, stack[j].1)[i])
    &&& forall|x: usize| #[trigger] visited.contains(x) ==> w.roots@.contains(x)
        || exists|p: usize| label.contains_key(p) && #[trigger] is_child(w, p as int, x) && depth[p] < depth[x]
}

/// The depth given to an entity visited in the list of `src`: one more than its parent's.
pub open spec fn step_depth(src: Option<usize>, depth: Map<usize, nat>) -> nat {
    match src {
        None => 0,
        Some(p) => depth[p] + 1,
    }
}

/// The roots are done unless a pending step lists them; the children of a labelled entity are
/// done unless a pending step lists them, or `partial` names them (done up to its count).
pub open spec fn walk_done<V: ValidHierarchyNode>(
    w: &HierarchySnapshot,
    root: V,
    stack: Seq<(V, Option<usize>)>,
    label: Map<usize, V>,
    bad: Set<usize>,
) -> bool {
    &&& (forall|j: int| 0 <= j < stack.len() ==> #[trigger] stack[j].1 != None::<usize>)
        ==> forall|i: int| 0 <= i < w.roots@.len() ==> #[trigger] consistent(w, root, label, bad, w.roots@[i])
    &&& forall|p: usize, c: usize| #![trigger label.contains_key(p), is_child(w, p as int, c)]
        label.contains_key(p) && is_child(w, p as int, c)
        && (forall|j: int| 0 <= j < stack.len() ==> #[trigger] stack[j].1 != Some(p))
        ==> consistent(w, label[p], label, bad, c)
}

/// The reports so far: each names a bad entity not reported before, once, with the kind of its
/// parent; every such entity is named; the reported set grew by the entities found bad.
pub open spec fn reports_ok<V: ValidHierarchyNode>(
    w: &HierarchySnapshot,
    root: V,
    label: Map<usize, V>,
    bad: Set<usize>,
    before: Set<u64>,
    after: Set<u64>,
    r: Seq<(usize, V)>,
) -> bool {
    &&& forall|t: int| 0 <= t < r.len() ==> {
        &&& bad.contains(#[trigger] r[t].0)
        &&& !before.contains(entity_of(w, r[t].0))
        &&& r[t].1 == parent_kind(w, root, label, r[t].0)
        &&& w.roots@.contains(r[t].0) || label.contains_key(parent_of(w, r[t].0) as usize)
    }
    &&& forall|x: usize| #[trigger] bad.contains(x) && !before.contains(entity_of(w, x))
        ==> exists|t: int| 0 <= t < r.len() && #[trigger] r[t].0 == x
    &&& forall|t: int, u: int| 0 <= t < u < r.len() ==> #[trigger] r[t].0 != #[trigger] r[u].0
    &&& after == before.union(entities_of_set(w, bad))
}

/// The entities at the indices in `s`.
pub open spec fn entities_of_set(w: &HierarchySnapshot, s: Set<usize>) -> Set<u64> {
    s.map(|x: usize| entity_of(w, x))
}

/// Adding an index adds its entity.
proof fn lemma_entities_insert(w: &HierarchySnapshot, s: Set<usize>, c: usize)
    ensures
        entities_of_set(w, s.insert(c)) == entities_of_set(w, s).insert(entity_of(w, c)),
        entities_of_set(w, Set::empty()) == Set::<u64>::empty(),
        forall|e: u64| #[trigger] entities_of_set(w, s).contains(e) ==> exists|y: usize| s.contains(y) && entity_of(w, y) == e,
{
    let f = |x: usize| entity_of(w, x);
    assert forall|e: u64| #[trigger] entities_of_set(w, s.insert(c)).contains(e)
        <==> entities_of_set(w, s).insert(entity_of(w, c)).contains(e) by {
        if entities_of_set(w, s.insert(c)).contains(e) {
            let y = choose|y: usize| s.insert(c).contains(y) && f(y) == e;
            if y != c {
                assert(s.contains(y) && f(y) == e);
            }
        }
        if entities_of_set(w, s).insert(entity_of(w, c)).contains(e) {
            if e == entity_of(w, c) {
                assert(s.insert(c).contains(c) && f(c) == e);
            } else {
                let y = choose|y: usize| s.contains(y) && f(y) == e;
                assert(s.insert(c).contains(y) && f(y) == e);
            }
        }
    }
    assert(entities_of_set(w, s.insert(c)) =~= entities_of_set(w, s).insert(entity_of(w, c)));
    assert(entities_of_set(w, Set::empty()) =~= Set::<u64>::empty());
}

/// As [`walk_done`], with the list of `src` taken out: that list is being walked.
pub open spec fn walk_done_except<V: ValidHierarchyNode>(
    w: &HierarchySnapshot,
    root: V,
    stack: Seq<(V, Option<usize>)>,
    label: Map<usize, V>,
    bad: Set<usize>,
    src: Option<usize>,
) -> bool {
    &&& (src != None::<usize> && forall|j: int| 0 <= j < stack.len() ==> #[trigger] stack[j].1 != None::<usize>)
        ==> forall|i: int| 0 <= i < w.roots@.len() ==> #[trigger] consistent(w, root, label, bad, w.roots@[i])
    &&& forall|p: usize, c: usize| #![trigger label.contains_key(p), is_child(w, p as int, c)]
        label.contains_key(p) && is_child(w, p as int, c) && src != Some(p)
        && (forall|j: int| 0 <= j < stack.len() ==> #[trigger] stack[j].1 != Some(p))
        ==> consistent(w, label[p], label, bad, c)
}

/// The entity being visited is in no other pending list, and none of its children has been
/// visited or is the entity itself.
proof fn lemma_fresh_children<V: ValidHierarchyNode>(
    w: &HierarchySnapshot,
    root: V,
    stack: Seq<(V, Option<usize>)>,
    label: Map<usize, V>,
    bad: Set<usize>,
    visited: Set<usize>,
    depth: Map<usize, nat>,
    parent: V,
    src: Option<usize>,
    i: int,
)
    requires
        is_forest(w),
        walk_inv(w, root, stack, label, bad, visited, depth),
        step_ok(w, root, label, (parent, src)),
        forall|j: int| 0 <= j < stack.len() ==> #[trigger] stack[j].1 != src,
        0 <= i < list_of(w, src).len(),
        forall|k: int| i <= k < list_of(w, src).len() ==> !visited.contains(#[trigger] list_of(w, src)[k]),
    ensures
        ({
            let c = list_of(w, src)[i];
            &&& c < w.nodes@.len()
            &&& !visited.contains(c)
            &&& src matches Some(p) ==> is_child(w, p as int, c)
            &&& src == None::<usize> ==> w.roots@.contains(c)
            &&& forall|d: usize| #[trigger] is_child(w, c as int, d) ==> !visited.contains(d) && d != c
            &&& forall|j: int, k: int| 0 <= j < stack.len() && 0 <= k < list_of(w, stack[j].1).len()
                ==> #[trigger] list_of(w, stack[j].1)[k] != c
            &&& forall|k: int| 0 <= k < list_of(w, src).len() && k != i ==> #[trigger] list_of(w, src)[k] != c
        }),
{
    let c = list_of(w, src)[i];
    match src {
        None => {
            assert(w.roots@[i] < w.nodes@.len());
            assert(w.roots@.contains(c));
        },
        Some(p) => {
            assert(children_of(w, p as int)[i] < w.nodes@.len());
            assert(is_child(w, p as int, c));
        },
    }
    assert forall|d: usize| #[trigger] is_child(w, c as int, d) implies !visited.contains(d) && d != c by {
        assert(!w.roots@.contains(d));
        if visited.contains(d) {
            let q = choose|q: usize| label.contains_key(q) && #[trigger] is_child(w, q as int, d);
            assert(is_child(w, q as int, d));
            assert(q == c);
        }
        if d == c {
            match src {
                None => {},
                Some(p) => {
                    assert(is_child(w, p as int, c));
                    assert(p == c);
                },
            }
        }
    }
    assert forall|j: int, k: int| 0 <= j < stack.len() && 0 <= k < list_of(w, stack[j].1).len()
        implies #[trigger] list_of(w, stack[j].1)[k] != c by {
        assert(step_ok(w, root, label, stack[j]));
        if list_of(w, stack[j].1)[k] == c {
            match stack[j].1 {
                None => {
                    assert(w.roots@.contains(c));
                    match src {
                        None => {},
                        Some(p) => {
                            assert(is_child(w, p as int, c));
                        },
                    }
                },
                Some(q) => {
                    assert(is_child(w, q as int, c));
                    match src {
                        None => {},
                        Some(p) => {
                            assert(is_child(w, p as int, c));
                        },
                    }
                },
            }
        }
    }
    match src {
        None => {},
        Some(p) => {
            assert(children_of(w, p as int).no_duplicates());
        },
    }
}

/// A child labelled with a kind keeps what holds of the entities walked before it.
proof fn lemma_consistent_grow<V: ValidHierarchyNode>(
    w: &HierarchySnapshot,
    parent: V,
    label: Map<usize, V>,
    bad: Set<usize>,
    label2: Map<usize, V>,
    bad2: Set<usize>,
    c: usize,
    x: usize,
)
    requires
        consistent(w, parent, label, bad, x),
        x != c,
        forall|y: usize| y != c ==> (label2.contains_key(y) <==> label.contains_key(y)),
        forall|y: usize| y != c && label.contains_key(y) ==> label2[y] == label[y],
        forall|y: usize| y != c ==> (bad2.contains(y) <==> bad.contains(y)),
    ensures
        consistent(w, parent, label2, bad2, x),
{
}

/// Visiting a child that matches kind `k`: it is labelled `k`, and its children become a pending
/// step when it has any.
proof fn lemma_visit_labelled<V: ValidHierarchyNode>(
    w: &HierarchySnapshot,
    root: V,
    stack: Seq<(V, Option<usize>)>,
    label: Map<usize, V>,
    bad: Set<usize>,
    visited: Set<usize>,
    depth: Map<usize, nat>,
    parent: V,
    src: Option<usize>,
    i: int,
    k: V,
    pushed: bool,
    before: Set<u64>,
    errs: Set<u64>,
    r: Seq<(usize, V)>,
)
    requires
        is_forest(w),
        step_ok(w, root, label, (parent, src)),
        forall|j: int| 0 <= j < stack.len() ==> #[trigger] stack[j].1 != src,
        walk_inv(w, root, stack, label, bad, visited, depth),
        0 <= i < list_of(w, src).len(),
        forall|q: int| i <= q < list_of(w, src).len() ==> !visited.contains(#[trigger] list_of(w, src)[q]),
        forall|q: int| 0 <= q < i ==> #[trigger] consistent(w, parent, label, bad, list_of(w, src)[q]),
        walk_done_except(w, root, stack, label, bad, src),
        reports_ok(w, root, label, bad, before, errs, r),
        first_match(parent.allowed_children(), components_of(w, list_of(w, src)[i])) == Some(k),
        !pushed ==> children_of(w, list_of(w, src)[i] as int).len() == 0,
    ensures
        ({
            let c = list_of(w, src)[i];
            let label2 = label.insert(c, k);
            let visited2 = visited.insert(c);
            let stack2 = if pushed { stack.push((k, Some(c))) } else { stack };
            &&& step_ok(w, root, label2, (parent, src))
            &&& forall|j: int| 0 <= j < stack2.len() ==> #[trigger] stack2[j].1 != src
            &&& walk_inv(w, root, stack2, label2, bad, visited2, depth.insert(c, step_depth(src, depth)))
            &&& forall|q: int| i + 1 <= q < list_of(w, src).len() ==> !visited2.contains(#[trigger] list_of(w, src)[q])
            &&& forall|q: int| 0 <= q < i + 1 ==> #[trigger] consistent(w, parent, label2, bad, list_of(w, src)[q])
            &&& walk_done_except(w, root, stack2, label2, bad, src)
            &&& reports_ok(w, root, label2, bad, before, errs, r)
            &&& !visited.contains(c)
        }),
{
    let list = list_of(w, src);
    let c = list[i];
    let label2 = label.insert(c, k);
    let visited2 = visited.insert(c);
    let stack2 = if pushed { stack.push((k, Some(c))) } else { stack };
    let depth2 = depth.insert(c, step_depth(src, depth));
    lemma_fresh_children(w, root, stack, label, bad, visited, depth, parent, src, i);
    match src {
        None => {},
        Some(p) => {
            assert(visited.contains(p));
        },
    }
    assert forall|j: int| 0 <= j < stack2.len() implies #[trigger] step_ok(w, root, label2, stack2[j]) by {
        if j < stack.len() {
            assert(step_ok(w, root, label, stack[j]));
            match stack[j].1 {
                None => {},
                Some(q) => {
                    assert(visited.contains(q));
                },
            }
        }
    }
    assert forall|j: int, m: int| 0 <= j < m < stack2.len() implies #[trigger] stack2[j].1 != #[trigger] stack2[m].1 by {
        if m == stack.len() {
            assert(step_ok(w, root, label, stack[j]));
            match stack[j].1 {
                None => {},
                Some(q) => {
                    assert(visited.contains(q));
                },
            }
        }
    }
    assert(visited2 =~= label2.dom().union(bad));
    assert forall|j: int, q: int| 0 <= j < stack2.len() && 0 <= q < list_of(w, stack2[j].1).len()
        implies !visited2.contains(#[trigger] list_of(w, stack2[j].1)[q]) by {
        if j < stack.len() {
            assert(list_of(w, stack[j].1)[q] != c);
        } else {
            assert(is_child(w, c as int, list_of(w, stack2[j].1)[q]));
        }
    }
    assert forall|x: usize| #[trigger] visited2.contains(x) implies w.roots@.contains(x)
        || exists|p: usize| label2.contains_key(p) && #[trigger] is_child(w, p as int, x) && depth2[p] < depth2[x] by {
        if x == c {
            match src {
                None => {},
                Some(p) => {
                    assert(visited.contains(p));
                    assert(label2.contains_key(p) && is_child(w, p as int, x) && depth2[p] < depth2[x]);
                },
            }
        } else {
            assert(visited.contains(x));
            if !w.roots@.contains(x) {
                let p = choose|p: usize| label.contains_key(p) && #[trigger] is_child(w, p as int, x) && depth[p] < depth[x];
                assert(visited.contains(p));
                assert(label2.contains_key(p) && is_child(w, p as int, x) && depth2[p] < depth2[x]);
            }
        }
    }
    assert(walk_inv(w, root, stack2, label2, bad, visited2, depth2));
    assert forall|q: int| 0 <= q < i + 1 implies #[trigger] consistent(w, parent, label2, bad, list[q]) by {
        if q < i {
            lemma_consistent_grow(w, parent, label, bad, label2, bad, c, list[q]);
        }
    }
    assert forall|q: usize, x: usize| #![trigger label2.contains_key(q), is_child(w, q as int, x)]
        label2.contains_key(q) && is_child(w, q as int, x) && src != Some(q)
        && (forall|j: int| 0 <= j < stack2.len() ==> #[trigger] stack2[j].1 != Some(q))
        implies consistent(w, label2[q], label2, bad, x) by {
        if q == c {
            if !pushed {
                assert(children_of(w, c as int).len() == 0);
            } else {
                assert(stack2[stack.len() as int].1 == Some(q));
            }
        } else {
            assert(forall|j: int| 0 <= j < stack.len() ==> stack2[j] == stack[j]);
            assert(consistent(w, label[q], label, bad, x));
            if x == c {
                match src {
                    None => {
                        assert(w.roots@.contains(c));
                    },
                    Some(p) => {
                        assert(is_child(w, p as int, c));
                    },
                }
            }
            lemma_consistent_grow(w, label[q], label, bad, label2, bad, c, x);
        }
    }
    assert forall|m: int| 0 <= m < w.roots@.len() && src != None::<usize>
        && (forall|j: int| 0 <= j < stack2.len() ==> #[trigger] stack2[j].1 != None::<usize>)
        implies #[trigger] consistent(w, root, label2, bad, w.roots@[m]) by {
        assert(forall|j: int| 0 <= j < stack.len() ==> stack2[j] == stack[j]);
        assert(consistent(w, root, label, bad, w.roots@[m]));
        match src {
            None => {},
            Some(p) => {
                assert(is_child(w, p as int, c));
                assert(w.roots@[m] != c);
            },
        }
        lemma_consistent_grow(w, root, label, bad, label2, bad, c, w.roots@[m]);
    }
    assert(walk_done_except(w, root, stack2, label2, bad, src));
    assert forall|t: int| 0 <= t < r.len() implies
        #[trigger] r[t].1 == parent_kind(w, root, label2, r[t].0)
        && (w.roots@.contains(r[t].0) || label2.contains_key(parent_of(w, r[t].0) as usize)) by {
        if !w.roots@.contains(r[t].0) {
            assert(label.contains_key(parent_of(w, r[t].0) as usize));
            assert(visited.contains(parent_of(w, r[t].0) as usize));
        }
    }
}

/// Visiting a child that matches none of the kinds its parent allows: it is found bad, and
/// reported unless its entity was reported before.
proof fn lemma_visit_bad<V: ValidHierarchyNode>(
    w: &HierarchySnapshot,
    root: V,
    stack: Seq<(V, Option<usize>)>,
    label: Map<usize, V>,
    bad: Set<usize>,
    visited: Set<usize>,
    depth: Map<usize, nat>,
    parent: V,
    src: Option<usize>,
    i: int,
    seen: bool,
    before: Set<u64>,
    errs: Set<u64>,
    r: Seq<(usize, V)>,
)
    requires
        is_forest(w),
        step_ok(w, root, label, (parent, src)),
        forall|j: int| 0 <= j < stack.len() ==> #[trigger] stack[j].1 != src,
        walk_inv(w, root, stack, label, bad, visited, depth),
        0 <= i < list_of(w, src).len(),
        forall|q: int| i <= q < list_of(w, src).len() ==> !visited.contains(#[trigger] list_of(w, src)[q]),
        forall|q: int| 0 <= q < i ==> #[trigger] consistent(w, parent, label, bad, list_of(w, src)[q]),
        walk_done_except(w, root, stack, label, bad, src),
        reports_ok(w, root, label, bad, before, errs, r),
        first_match(parent.allowed_children(), components_of(w, list_of(w, src)[i])) == None::<V>,
        seen == errs.contains(entity_of(w, list_of(w, src)[i])),
    ensures
        ({
            let c = list_of(w, src)[i];
            let bad2 = bad.insert(c);
            let visited2 = visited.insert(c);
            let errs2 = if seen { errs } else { errs.insert(entity_of(w, c)) };
            let r2 = if seen { r } else { r.push((c, parent)) };
            &&& walk_inv(w, root, stack, label, bad2, visited2, depth.insert(c, step_depth(src, depth)))
            &&& forall|q: int| i + 1 <= q < list_of(w, src).len() ==> !visited2.contains(#[trigger] list_of(w, src)[q])
            &&& forall|q: int| 0 <= q < i + 1 ==> #[trigger] consistent(w, parent, label, bad2, list_of(w, src)[q])
            &&& walk_done_except(w, root, stack, label, bad2, src)
            &&& reports_ok(w, root, label, bad2, before, errs2, r2)
            &&& !visited.contains(c)
        }),
{
    let list = list_of(w, src);
    let c = list[i];
    let bad2 = bad.insert(c);
    let visited2 = visited.insert(c);
    let errs2 = if seen { errs } else { errs.insert(entity_of(w, c)) };
    let r2 = if seen { r } else { r.push((c, parent)) };
    let depth2 = depth.insert(c, step_depth(src, depth));
    lemma_fresh_children(w, root, stack, label, bad, visited, depth, parent, src, i);
    lemma_entities_insert(w, bad, c);
    assert(visited2 =~= label.dom().union(bad2));
    assert forall|j: int, q: int| 0 <= j < stack.len() && 0 <= q < list_of(w, stack[j].1).len()
        implies !visited2.contains(#[trigger] list_of(w, stack[j].1)[q]) by {
        assert(list_of(w, stack[j].1)[q] != c);
    }
    assert forall|x: usize| #[trigger] visited2.contains(x) implies w.roots@.contains(x)
        || exists|p: usize| label.contains_key(p) && #[trigger] is_child(w, p as int, x) && depth2[p] < depth2[x] by {
        if x == c {
            match src {
                None => {},
                Some(p) => {
                    assert(visited.contains(p));
                    assert(label.contains_key(p) && is_child(w, p as int, x) && depth2[p] < depth2[x]);
                },
            }
        } else {
            assert(visited.contains(x));
            if !w.roots@.contains(x) {
                let p = choose|p: usize| label.contains_key(p) && #[trigger] is_child(w, p as int, x) && depth[p] < depth[x];
                assert(visited.contains(p));
                assert(label.contains_key(p) && is_child(w, p as int, x) && depth2[p] < depth2[x]);
            }
        }
    }
    assert(walk_inv(w, root, stack, label, bad2, visited2, depth2));
    assert forall|q: int| 0 <= q < i + 1 implies #[trigger] consistent(w, parent, label, bad2, list[q]) by {
        if q < i {
            lemma_consistent_grow(w, parent, label, bad, label, bad2, c, list[q]);
        }
    }
    assert forall|q: usize, x: usize| #![trigger label.contains_key(q), is_child(w, q as int, x)]
        label.contains_key(q) && is_child(w, q as int, x) && src != Some(q)
        && (forall|j: int| 0 <= j < stack.len() ==> #[trigger] stack[j].1 != Some(q))
        implies consistent(w, label[q], label, bad2, x) by {
        if x == c {
            match src {
                None => {
                    assert(w.roots@.contains(c));
                },
                Some(p) => {
                    assert(is_child(w, p as int, c));
                },
            }
        }
        lemma_consistent_grow(w, label[q], label, bad, label, bad2, c, x);
    }
    assert forall|m: int| 0 <= m < w.roots@.len() && src != None::<usize>
        && (forall|j: int| 0 <= j < stack.len() ==> #[trigger] stack[j].1 != None::<usize>)
        implies #[trigger] consistent(w, root, label, bad2, w.roots@[m]) by {
        assert(consistent(w, root, label, bad, w.roots@[m]));
        match src {
            None => {},
            Some(p) => {
                assert(is_child(w, p as int, c));
                assert(w.roots@[m] != c);
            },
        }
        lemma_consistent_grow(w, root, label, bad, label, bad2, c, w.roots@[m]);
    }
    assert(walk_done_except(w, root, stack, label, bad2, src));
    // The kind of the parent of the new report.
    match src {
        None => {
            assert(w.roots@.contains(c));
        },
        Some(p) => {
            assert(is_child(w, p as int, c));
            assert(!w.roots@.contains(c));
            let q = parent_of(w, c);
            assert(is_child(w, q, c));
            assert(q == p);
        },
    }
    // An entity reported before this call is the entity of a bad child found before `c`.
    if !before.contains(entity_of(w, c)) && seen {
        assert(entities_of_set(w, bad).contains(entity_of(w, c)));
        let y = choose|y: usize| bad.contains(y) && entity_of(w, y) == entity_of(w, c);
        assert(visited.contains(y));
        assert(y < w.nodes@.len());
        assert(w.nodes@[y as int].entity == w.nodes@[c as int].entity);
        assert(false);
    }
    assert(errs2 =~= before.union(entities_of_set(w, bad2))) by {
        if seen {
            if !before.contains(entity_of(w, c)) {
                assert(false);
            }
        }
    }
    assert forall|x: usize| #[trigger] bad2.contains(x) && !before.contains(entity_of(w, x))
        implies exists|t: int| 0 <= t < r2.len() && #[trigger] r2[t].0 == x by {
        if x == c {
            assert(r2[r.len() as int].0 == x);
        } else {
            let t = choose|t: int| 0 <= t < r.len() && #[trigger] r[t].0 == x;
            assert(r2[t].0 == x);
        }
    }
    assert forall|t: int, u: int| 0 <= t < u < r2.len() implies #[trigger] r2[t].0 != #[trigger] r2[u].0 by {
        if u == r.len() {
            assert(bad.contains(r[t].0));
        }
    }
    assert(reports_ok(w, root, label, bad2, before, errs2, r2));
}

/// Two labellings from the same root kind agree on an entity labelled or bad in the first.
proof fn lemma_labelling_agree<V: ValidHierarchyNode>(
    w: &HierarchySnapshot,
    root: V,
    l1: Map<usize, V>,
    b1: Set<usize>,
    d1: Map<usize, nat>,
    l2: Map<usize, V>,
    b2: Set<usize>,
    d2: Map<usize, nat>,
    x: usize,
)
    requires
        is_labelling(w, root, l1, b1, d1),
        is_labelling(w, root, l2, b2, d2),
        l1.contains_key(x) || b1.contains(x),
    ensures
        l1.contains_key(x) ==> l2.contains_key(x) && l2[x] == l1[x],
        b1.contains(x) ==> b2.contains(x),
    decreases d1[x],
{
    if w.roots@.contains(x) {
        let i = choose|i: int| 0 <= i < w.roots@.len() && w.roots@[i] == x;
        assert(consistent(w, root, l1, b1, w.roots@[i]));
        assert(consistent(w, root, l2, b2, w.roots@[i]));
    } else {
        let p = choose|p: usize| l1.contains_key(p) && #[trigger] is_child(w, p as int, x) && d1[p] < d1[x];
        lemma_labelling_agree(w, root, l1, b1, d1, l2, b2, d2, p);
        assert(consistent(w, l1[p], l1, b1, x));
        assert(consistent(w, l2[p], l2, b2, x));
    }
}

/// The labelling of a hierarchy is unique: any two labellings from the same root kind label the
/// same entities with the same kinds and find the same entities bad. So the contract of
/// [`validate_hierarchy`] fixes its reports.
pub proof fn lemma_labelling_unique<V: ValidHierarchyNode>(
    w: &HierarchySnapshot,
    root: V,
    l1: Map<usize, V>,
    b1: Set<usize>,
    d1: Map<usize, nat>,
    l2: Map<usize, V>,
    b2: Set<usize>,
    d2: Map<usize, nat>,
)
    requires
        is_labelling(w, root, l1, b1, d1),
        is_labelling(w, root, l2, b2, d2),
    ensures
        l1 == l2,
        b1 == b2,
{
    assert forall|x: usize| #[trigger] l1.dom().contains(x) == l2.dom().contains(x) by {
        if l1.contains_key(x) {
            lemma_labelling_agree(w, root, l1, b1, d1, l2, b2, d2, x);
        }
        if l2.contains_key(x) {
            lemma_labelling_agree(w, root, l2, b2, d2, l1, b1, d1, x);
        }
    }
    assert(l1.dom() =~= l2.dom());
    assert forall|x: usize| #[trigger] l1.contains_key(x) implies l1[x] == l2[x] by {
        lemma_labelling_agree(w, root, l1, b1, d1, l2, b2, d2, x);
    }
    assert forall|x: usize| #[trigger] b1.contains(x) == b2.contains(x) by {
        if b1.contains(x) {
            lemma_labelling_agree(w, root, l1, b1, d1, l2, b2, d2, x);
        }
        if b2.contains(x) {
            lemma_labelling_agree(w, root, l2, b2, d2, l1, b1, d1, x);
        }
    }
    assert(l1 =~= l2);
    assert(b1 =~= b2);
}

/// The indices listed among the roots, or among the children of the first `p` entities, or among
/// the first `k` children of the entity at index `p`.
pub open spec fn listed_before(w: &HierarchySnapshot, p: int, k: int, c: usize) -> bool {
    ||| w.roots@.contains(c)
    ||| exists|q: int| 0 <= q < p && #[trigger] is_child(w, q, c)
    ||| exists|j: int| 0 <= j < k && children_of(w, p)[j] == c
}

/// Checks that the snapshot describes a forest, as [`validate_hierarchy`] requires.
pub fn check_forest(world: &HierarchySnapshot) -> (r: bool)
    ensures
        r == is_forest(world),
{
    let n = world.nodes.len();
    let mut seen: Vec<bool> = Vec::new();
    let mut i: usize = 0;
    while i < n
        invariant
            n == world.nodes@.len(),
            0 <= i <= n,
            seen@.len() == i,
            forall|j: int| 0 <= j < i ==> !(#[trigger] seen@[j]),
        decreases n - i,
    {
        seen.push(false);
        i += 1;
    }
    // The roots: in range, each once.
    let mut k: usize = 0;
    while k < world.roots.len()
        invariant
            n == world.nodes@.len(),
            seen@.len() == n,
            0 <= k <= world.roots@.len(),
            forall|j: int| 0 <= j < k ==> #[trigger] world.roots@[j] < n,
            forall|a: int, b: int| 0 <= a < b < k ==> #[trigger] world.roots@[a] != #[trigger] world.roots@[b],
            forall|c: int| 0 <= c < n ==> (#[trigger] seen@[c] <==> world.roots@.take(k as int).contains(c as usize)),
        decreases world.roots@.len() - k,
    {
        let c = world.roots[k];
        if c >= n {
            return false;
        }
        if seen[c] {
            proof {
                let a = choose|a: int| 0 <= a < k && world.roots@.take(k as int)[a] == c;
                assert(world.roots@[a] == world.roots@[k as int]);
            }
            return false;
        }
        proof {
            assert forall|a: int| 0 <= a < k implies world.roots@[a] != c by {
                assert(world.roots@.take(k as int)[a] == world.roots@[a]);
            }
        }
        seen.set(c, true);
        proof {
            assert(world.roots@.take(k + 1) =~= world.roots@.take(k as int).push(c));
            assert forall|d: int| 0 <= d < n implies (#[trigger] seen@[d] <==> world.roots@.take(k + 1).contains(d as usize)) by {
                if d as usize == c {
                    assert(world.roots@.take(k + 1)[k as int] == c);
                }
            }
        }
        k += 1;
    }
    proof {
        assert(world.roots@.take(world.roots@.len() as int) =~= world.roots@);
    }
    // The children: in range, each listed once over the roots and all children lists.
    let mut p: usize = 0;
    while p < n
        invariant
            n == world.nodes@.len(),
            seen@.len() == n,
            0 <= p <= n,
            world.roots@.no_duplicates(),
            forall|j: int| 0 <= j < world.roots@.len() ==> #[trigger] world.roots@[j] < n,
            forall|q: int, j: int| 0 <= q < p && 0 <= j < children_of(world, q).len()
                ==> #[trigger] children_of(world, q)[j] < n,
            forall|q: int| 0 <= q < p ==> (#[trigger] children_of(world, q)).no_duplicates(),
            forall|q: int, c: usize| 0 <= q < p && #[trigger] is_child(world, q, c) ==> !world.roots@.contains(c),
            forall|q: int, q2: int, c: usize| 0 <= q < p && 0 <= q2 < p && #[trigger] is_child(world, q, c)
                && #[trigger] is_child(world, q2, c) ==> q == q2,
            forall|c: int| 0 <= c < n ==> (#[trigger] seen@[c] <==> listed_before(world, p as int, 0, c as usize)),
        decreases n - p,
    {
        let list = &world.nodes[p].children;
        let mut j: usize = 0;
        while j < list.len()
            invariant
                n == world.nodes@.len(),
                seen@.len() == n,
                0 <= p < n,
                list@ == children_of(world, p as int),
                0 <= j <= list@.len(),
                forall|a: int| 0 <= a < j ==> #[trigger] list@[a] < n,
                forall|a: int, b: int| 0 <= a < b < j ==> #[trigger] list@[a] != #[trigger] list@[b],
                forall|a: int| 0 <= a < j ==> !world.roots@.contains(#[trigger] list@[a]),
                forall|a: int, q: int| 0 <= a < j && 0 <= q < p ==> !#[trigger] is_child(world, q, list@[a]),
                forall|c: int| 0 <= c < n ==> (#[trigger] seen@[c] <==> listed_before(world, p as int, j as int, c as usize)),
            decreases list@.len() - j,
        {
            let c = list[j];
            if c >= n {
                return false;
            }
            if seen[c] {
                proof {
                    assert(listed_before(world, p as int, j as int, c));
                    if world.roots@.contains(c) {
                        assert(is_child(world, p as int, c));
                    } else if exists|q: int| 0 <= q < p && #[trigger] is_child(world, q, c) {
                        let q = choose|q: int| 0 <= q < p && #[trigger] is_child(world, q, c);
                        assert(is_child(world, p as int, c));
                        assert(is_child(world, q, c));
                    } else {
                        let a = choose|a: int| 0 <= a < j && children_of(world, p as int)[a] == c;
                        assert(children_of(world, p as int)[j as int] == c);
                    }
                }
                return false;
            }
            seen.set(c, true);
            proof {
                assert forall|d: int| 0 <= d < n implies (#[trigger] seen@[d] <==> listed_before(world, p as int, j + 1, d as usize)) by {
                    if d as usize == c {
                        assert(children_of(world, p as int)[j as int] == c);
                    }
                    if listed_before(world, p as int, j + 1, d as usize) && d as usize != c {
                        if exists|a: int| 0 <= a < j + 1 && children_of(world, p as int)[a] == d as usize {
                            let a = choose|a: int| 0 <= a < j + 1 && children_of(world, p as int)[a] == d as usize;
                            assert(a != j);
                        }
                    }
                }
                assert(!world.roots@.contains(c)) by {
                    if world.roots@.contains(c) {
                        assert(listed_before(world, p as int, j as int, c));
                    }
                }
                assert forall|q: int| 0 <= q < p implies !is_child(world, q, c) by {
                    if is_child(world, q, c) {
                        assert(listed_before(world, p as int, j as int, c));
                    }
                }
                assert forall|a: int| 0 <= a < j implies #[trigger] list@[a] != c by {
                    if list@[a] == c {
                        assert(listed_before(world, p as int, j as int, c));
                    }
                }
            }
            j += 1;
        }
        proof {
            assert forall|c: int| 0 <= c < n implies (#[trigger] seen@[c] <==> listed_before(world, p + 1, 0, c as usize)) by {
                if listed_before(world, p as int, list@.len() as int, c as usize) {
                    if exists|a: int| 0 <= a < list@.len() && children_of(world, p as int)[a] == c as usize {
                        let a = choose|a: int| 0 <= a < list@.len() && children_of(world, p as int)[a] == c as usize;
                        assert(is_child(world, p as int, c as usize));
                    }
                }
                if listed_before(world, p + 1, 0, c as usize) {
                    if exists|q: int| 0 <= q < p + 1 && #[trigger] is_child(world, q, c as usize) {
                        let q = choose|q: int| 0 <= q < p + 1 && #[trigger] is_child(world, q, c as usize);
                        if q == p {
                            let a = choose|a: int| 0 <= a < list@.len() && list@[a] == c as usize;
                        }
                    }
                }
            }
            assert forall|q: int, c: usize| 0 <= q < p + 1 && #[trigger] is_child(world, q, c) implies !world.roots@.contains(c) by {
                if q == p {
                    let a = choose|a: int| 0 <= a < list@.len() && list@[a] == c;
                }
            }
            assert forall|q: int, q2: int, c: usize| 0 <= q < p + 1 && 0 <= q2 < p + 1 && #[trigger] is_child(world, q, c)
                && #[trigger] is_child(world, q2, c) implies q == q2 by {
                if q == p && q2 != p {
                    let a = choose|a: int| 0 <= a < list@.len() && list@[a] == c;
                }
                if q2 == p && q != p {
                    let a = choose|a: int| 0 <= a < list@.len() && list@[a] == c;
                }
            }
        }
        p += 1;
    }
    // No two entities are the same.
    let mut entities: std::collections::HashSet<u64> = std::collections::HashSet::new();
    let mut e: usize = 0;
    while e < n
        invariant
            n == world.nodes@.len(),
            0 <= e <= n,
            world.roots@.no_duplicates(),
            forall|j: int| 0 <= j < world.roots@.len() ==> #[trigger] world.roots@[j] < n,
            forall|q: int, j: int| 0 <= q < n && 0 <= j < children_of(world, q).len()
                ==> #[trigger] children_of(world, q)[j] < n,
            forall|q: int| 0 <= q < n ==> (#[trigger] children_of(world, q)).no_duplicates(),
            forall|q: int, c: usize| #[trigger] is_child(world, q, c) ==> !world.roots@.contains(c),
            forall|q: int, q2: int, c: usize| #[trigger] is_child(world, q, c) && #[trigger] is_child(world, q2, c) ==> q == q2,
            forall|a: int, b: int| 0 <= a < e && 0 <= b < e && #[trigger] world.nodes@[a].entity == #[trigger] world.nodes@[b].entity ==> a == b,
            forall|x: u64| #[trigger] entities@.contains(x) <==> exists|a: int| 0 <= a < e && world.nodes@[a].entity == x,
        decreases n - e,
    {
        let id = world.nodes[e].entity;
        if !entities.insert(id) {
            return false;
        }
        e += 1;
    }
    true
}

/// Walks the hierarchy from its roots, with `root` as the kind of the parent of the roots, and
/// reports each entity that matches none of the kinds its parent allows, unless its entity is
/// already in `error_entities`. Reported entities are added to `error_entities`, so that an entity
/// is reported once over repeated validations. Each report gives the index of the entity and the
/// kind of its parent. Entities below a bad entity are not visited.
pub fn validate_hierarchy<V: ValidHierarchyNode>(
    root: V,
    world: &HierarchySnapshot,
    error_entities: &mut EntitySet,
) -> (r: Vec<(usize, V)>)
    requires
        is_forest(world),
    ensures
        exists|label: Map<usize, V>, bad: Set<usize>, depth: Map<usize, nat>|
            #[trigger] is_labelling(world, root, label, bad, depth)
            && reports_ok(world, root, label, bad, entity_set(*old(error_entities)),
                entity_set(*final(error_entities)), r@),
{
    let ghost w = world;
    let node_count = world.nodes.len();
    let ghost n = world.nodes@.len();
    let ghost before = entity_set(*error_entities);
    let ghost mut label: Map<usize, V> = Map::empty();
    let ghost mut bad: Set<usize> = Set::empty();
    let ghost mut visited: Set<usize> = Set::empty();
    let ghost mut depth: Map<usize, nat> = Map::empty();
    let mut stack: Vec<(V, Option<usize>)> = Vec::new();
    stack.push((root, None));
    let mut result: Vec<(usize, V)> = Vec::new();
    proof {
        lemma_indices_below(n);
        lemma_entities_insert(w, bad, 0);
        assert(before.union(Set::<u64>::empty()) =~= before);
        assert(visited =~= label.dom().union(bad));
        assert(step_ok(world, root, label, stack@[0]));
        assert(walk_inv(world, root, stack@, label, bad, visited, depth));
        assert(walk_done(world, root, stack@, label, bad));
    }
    while stack.len() > 0
        invariant
            w == world,
            n == world.nodes@.len(),
            is_forest(world),
            indices_below(n).finite(),
            indices_below(n).len() == n,
            walk_inv(world, root, stack@, label, bad, visited, depth),
            walk_done(world, root, stack@, label, bad),
            reports_ok(world, root, label, bad, before, entity_set(*error_entities), result@),
        decreases 2 * (n - visited.len()) + stack@.len(),
    {
        proof {
            vstd::set_lib::lemma_len_subset(visited, indices_below(n));
        }
        let ghost stack0 = stack@;
        let ghost visited0 = visited;
        let (parent, src) = stack.pop().unwrap();
        proof {
            assert(stack0[stack0.len() - 1] == (parent, src));
            assert(stack@ =~= stack0.drop_last());
            assert(step_ok(world, root, label, stack0[stack0.len() - 1]));
        }
        let list: &Vec<usize> = match src {
            None => &world.roots,
            Some(p) => &world.nodes[p].children,
        };
        proof {
            assert(list@ == list_of(world, src));
        }
        let allowed = parent.allowed_child_nodes();
        let mut i: usize = 0;
        proof {
            assert forall|j: int| 0 <= j < stack@.len() implies #[trigger] stack@[j].1 != src by {
                assert(stack@[j] == stack0[j]);
            }
            assert forall|p: usize, c: usize| #![trigger label.contains_key(p), is_child(world, p as int, c)]
                label.contains_key(p) && is_child(world, p as int, c) && src != Some(p)
                && (forall|j: int| 0 <= j < stack@.len() ==> #[trigger] stack@[j].1 != Some(p))
                implies consistent(world, label[p], label, bad, c) by {
                assert forall|j: int| 0 <= j < stack0.len() implies #[trigger] stack0[j].1 != Some(p) by {
                    if j < stack@.len() {
                        assert(stack@[j] == stack0[j]);
                    }
                }
            }
            if src != None::<usize> && forall|j: int| 0 <= j < stack@.len() ==> #[trigger] stack@[j].1 != None::<usize> {
                assert forall|j: int| 0 <= j < stack0.len() implies #[trigger] stack0[j].1 != None::<usize> by {
                    if j < stack@.len() {
                        assert(stack@[j] == stack0[j]);
                    }
                }
            }
            assert(walk_done_except(world, root, stack@, label, bad, src));
            assert forall|j: int| 0 <= j < stack@.len() implies #[trigger] step_ok(world, root, label, stack@[j]) by {
                assert(stack@[j] == stack0[j]);
            }
            assert forall|j: int, q: int| 0 <= j < stack@.len() && 0 <= q < list_of(world, stack@[j].1).len()
                implies !visited.contains(#[trigger] list_of(world, stack@[j].1)[q]) by {
                assert(stack@[j] == stack0[j]);
            }
            assert forall|q: int| 0 <= q < list@.len() implies !visited.contains(#[trigger] list@[q]) by {
                assert(list_of(world, stack0[stack0.len() - 1].1)[q] == list@[q]);
            }
            vstd::set_lib::lemma_len_subset(visited, indices_below(n));
        }
        while i < list.len()
            invariant
                w == world,
                n == world.nodes@.len(),
                is_forest(world),
                indices_below(n).finite(),
                indices_below(n).len() == n,
            indices_below(n).len() == n,
                list@ == list_of(world, src),
                allowed@ == parent.allowed_children(),
                step_ok(world, root, label, (parent, src)),
                0 <= i <= list.len(),
                forall|j: int| 0 <= j < stack@.len() ==> #[trigger] stack@[j].1 != src,
                walk_inv(world, root, stack@, label, bad, visited, depth),
                forall|k: int| i <= k < list@.len() ==> !visited.contains(#[trigger] list@[k]),
                forall|k: int| 0 <= k < i ==> #[trigger] consistent(world, parent, label, bad, list@[k]),
                walk_done_except(world, root, stack@, label, bad, src),
                reports_ok(world, root, label, bad, before, entity_set(*error_entities), result@),
                visited.finite(),
                visited.len() == visited0.len() + i,
                visited0.len() <= n,
                stack@.len() <= stack0.len() - 1 + i,
            decreases list.len() - i,
        {
            let c = list[i];
            let found = first_matching(&allowed, &world.nodes[c].components);
            match found {
                Some(k) => {
                    let pushed = world.nodes[c].children.len() > 0;
                    proof {
                        lemma_visit_labelled(world, root, stack@, label, bad, visited, depth, parent, src,
                            i as int, k, pushed, before, entity_set(*error_entities), result@);
                        depth = depth.insert(c, step_depth(src, depth));
                        label = label.insert(c, k);
                        visited = visited.insert(c);
                    }
                    if pushed {
                        stack.push((k, Some(c)));
                    }
                },
                None => {
                    let e = world.nodes[c].entity;
                    let seen = entity_set_contains(error_entities, &e);
                    proof {
                        lemma_visit_bad(world, root, stack@, label, bad, visited, depth, parent, src,
                            i as int, seen, before, entity_set(*error_entities), result@);
                        depth = depth.insert(c, step_depth(src, depth));
                        bad = bad.insert(c);
                        visited = visited.insert(c);
                    }
                    if !seen {
                        entity_set_insert(error_entities, e);
                        result.push((c, parent));
                    }
                },
            }
            i += 1;
        }
        proof {
            vstd::set_lib::lemma_len_subset(visited, indices_below(n));
            assert(visited.len() == visited0.len() + list@.len());
            assert(stack@.len() <= stack0.len() - 1 + list@.len());
            assert(2 * (n - visited.len()) + stack@.len() < 2 * (n - visited0.len()) + stack0.len());
        }
    }
    proof {
        assert forall|p: usize, c: usize| #![trigger label.contains_key(p), is_child(world, p as int, c)]
            label.contains_key(p) && is_child(world, p as int, c) implies consistent(world, label[p], label, bad, c) by {
            assert(forall|j: int| 0 <= j < stack@.len() ==> #[trigger] stack@[j].1 != Some(p));
        }
        assert forall|x: usize| label.contains_key(x) || bad.contains(x) implies world.roots@.contains(x)
            || exists|p: usize| label.contains_key(p) && #[trigger] is_child(world, p as int, x) && depth[p] < depth[x] by {
            assert(visited.contains(x));
        }
        assert(is_labelling(world, root, label, bad, depth));
    }
    result
}

} // verus!
