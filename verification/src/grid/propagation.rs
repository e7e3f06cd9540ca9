//! Which global transforms propagation recomputes.
//!
//! An entity with a cell gets its global transform from its parent grid's floating origin and its
//! own cell and transform. It is recomputed when the floating origin moved relative to the grid,
//! or when the entity itself changed; whole grids whose subtree is clean are skipped.

use vstd::prelude::*;
use crate::stationary::{tick_age, GridDirtyTick};
use crate::validation::ComponentFlags;

verus! {

/// What propagation knows of an entity with a cell, and of its parent grid, this frame.
#[derive(Clone, Copy, Debug, Default, PartialEq, Eq, Structural)]
pub struct PropagationFlags {
    /// The floating origin has not moved relative to the parent grid.
    pub origin_unchanged: bool,
    /// No non-stationary entity in the parent grid's subtree changed this frame.
    pub subtree_clean: bool,
    /// The entity's transform changed.
    pub transform_changed: bool,
    /// The entity's cell changed.
    pub cell_changed: bool,
    /// The entity's parent changed.
    pub parent_changed: bool,
    /// The entity is stationary.
    pub stationary: bool,
    /// The entity went to sleep as stationary, after its first frame.
    pub stationary_initialized: bool,
}

/// Whether the global transform of an entity is recomputed: not when its grid's origin is
/// unchanged and its subtree clean; otherwise when the origin moved, when the entity's cell or
/// parent changed, when a non-stationary entity's transform changed, or when a stationary entity
/// has not had its first global transform.
pub open spec fn recompute(f: PropagationFlags) -> bool {
    &&& !(f.origin_unchanged && f.subtree_clean)
    &&& (!f.origin_unchanged || (f.transform_changed && !f.stationary) || f.cell_changed
        || f.parent_changed || (f.stationary && !f.stationary_initialized))
}

/// Whether the subtree of a grid is clean this frame: its dirty tick, when the grid has one, is
/// not newer than the system's last run. A grid without a dirty tick is always dirty.
pub fn subtree_clean(dirty_tick: Option<GridDirtyTick>, last_run: u32, this_run: u32) -> (r: bool)
    ensures
        r == match dirty_tick {
            Some(t) => !(tick_age(this_run, last_run) > tick_age(this_run, t.0)),
            None => false,
        },
{
    match dirty_tick {
        Some(t) => !t.is_dirty(last_run, this_run),
        None => false,
    }
}

/// Whether the global transform of an entity with a cell is recomputed this frame.
pub fn needs_recompute(f: &PropagationFlags) -> (r: bool)
    ensures
        r == recompute(*f),
        f.origin_unchanged && f.subtree_clean ==> !r,
        !f.origin_unchanged ==> r,
        !(f.origin_unchanged && f.subtree_clean) && (f.cell_changed || f.parent_changed
            || (f.transform_changed && !f.stationary) || (f.stationary && !f.stationary_initialized)) ==> r,
        f.origin_unchanged && !f.cell_changed && !f.parent_changed && !(f.transform_changed && !f.stationary)
            && !(f.stationary && !f.stationary_initialized) ==> !r,
{
    if f.origin_unchanged && f.subtree_clean {
        return false;
    }
    !f.origin_unchanged || (f.transform_changed && !f.stationary) || f.cell_changed || f.parent_changed
        || (f.stationary && !f.stationary_initialized)
}

/// An entity that moved, or whose cell or parent changed, always gets a new global transform
/// unless it is stationary and went to sleep with its grid clean and its origin unchanged.
pub proof fn lemma_moved_entities_recompute(f: PropagationFlags)
    requires
        f.cell_changed || f.parent_changed || (f.transform_changed && !f.stationary),
        !(f.origin_unchanged && f.subtree_clean),
    ensures
        recompute(f),
{
}

/// When the floating origin moved relative to a grid, every entity of the grid gets a new
/// global transform.
pub proof fn lemma_origin_moved_recomputes_all(f: PropagationFlags)
    requires
        !f.origin_unchanged,
    ensures
        recompute(f),
{
}

/// Which entities get a new global transform, by what changed:
/// - nothing is recomputed in a grid whose floating origin did not move and whose subtree is
///   clean;
/// - otherwise, an entity is recomputed when the origin moved relative to its grid, when its cell
///   or its parent changed, when it is not stationary and its transform changed, and when it is
///   stationary and has not had its first global transform yet, whatever its transform's change
///   flag;
/// - otherwise it keeps its global transform: in particular a stationary entity that already has
///   its first global transform is not recomputed because its transform changed.
pub proof fn lemma_recompute_rules(f: PropagationFlags)
    ensures
        f.origin_unchanged && f.subtree_clean ==> !recompute(f),
        !f.origin_unchanged ==> recompute(f),
        !(f.origin_unchanged && f.subtree_clean) && f.cell_changed ==> recompute(f),
        !(f.origin_unchanged && f.subtree_clean) && f.parent_changed ==> recompute(f),
        !(f.origin_unchanged && f.subtree_clean) && f.transform_changed && !f.stationary ==> recompute(f),
        !(f.origin_unchanged && f.subtree_clean) && f.stationary && !f.stationary_initialized ==> recompute(f),
        f.origin_unchanged && !f.cell_changed && !f.parent_changed && !(f.transform_changed && !f.stationary)
            && !(f.stationary && !f.stationary_initialized) ==> !recompute(f),
        f.origin_unchanged && f.stationary && f.stationary_initialized && !f.cell_changed && !f.parent_changed
            ==> !recompute(f),
{
}

/// Skipping an entity never leaves its global transform stale. A clean subtree means that no
/// entity in it that is not stationary changed its transform, cell or parent, and a stationary
/// entity promises not to change them; given both, an entity whose global transform is not
/// recomputed has a floating origin that did not move relative to its grid, and a transform,
/// cell and parent that did not change, so the transform it keeps is the one it would get.
pub proof fn lemma_skipped_entities_unchanged(f: PropagationFlags)
    requires
        !recompute(f),
        f.subtree_clean && !f.stationary ==> !f.transform_changed && !f.cell_changed && !f.parent_changed,
        f.stationary ==> !f.transform_changed && !f.cell_changed && !f.parent_changed,
    ensures
        f.origin_unchanged,
        !f.transform_changed,
        !f.cell_changed,
        !f.parent_changed,
{
}

/// An entity is the root of a low-precision transform hierarchy within a big space when it has a
/// transform and a global transform but no cell, and its parent has a cell, a global transform
/// and children.
pub open spec fn low_precision_root(entity: ComponentFlags, parent: Option<(ComponentFlags, bool)>) -> bool {
    &&& entity.transform
    &&& entity.global_transform
    &&& !entity.cell_coord
    &&& parent matches Some((p, has_children)) && p.cell_coord && p.global_transform && has_children
}

/// Which entities are roots of low-precision transform hierarchies inside a big space:
/// - an entity with a transform and a global transform but no cell, whose parent has a cell, a
///   global transform and children, is one;
/// - an entity without a parent, or whose parent has no cell, no global transform or no
///   children, is not one: in particular an entity nested under another low-precision entity is
///   not a root;
/// - an entity with a cell, or without a transform or a global transform, is not one.
pub proof fn lemma_low_precision_root_rules(entity: ComponentFlags, parent: Option<(ComponentFlags, bool)>)
    ensures
        entity.transform && entity.global_transform && !entity.cell_coord && parent is Some
            && parent.unwrap().0.cell_coord && parent.unwrap().0.global_transform && parent.unwrap().1
            ==> low_precision_root(entity, parent),
        parent is None ==> !low_precision_root(entity, parent),
        parent matches Some((p, _)) && !p.cell_coord ==> !low_precision_root(entity, parent),
        parent matches Some((p, _)) && !p.global_transform ==> !low_precision_root(entity, parent),
        parent matches Some((_, has_children)) && !has_children ==> !low_precision_root(entity, parent),
        entity.cell_coord ==> !low_precision_root(entity, parent),
        !entity.transform || !entity.global_transform ==> !low_precision_root(entity, parent),
{
}

/// Whether an entity is the root of a low-precision transform hierarchy; `parent` gives the
/// components of its parent, if it has one, and whether the parent has children.
pub fn is_low_precision_root(entity: &ComponentFlags, parent: Option<(ComponentFlags, bool)>) -> (r: bool)
    ensures
        r == low_precision_root(*entity, parent),
        r <==> entity.transform && entity.global_transform && !entity.cell_coord && parent is Some
            && parent.unwrap().0.cell_coord && parent.unwrap().0.global_transform && parent.unwrap().1,
{
    if !(entity.transform && entity.global_transform && !entity.cell_coord) {
        return false;
    }
    match parent {
        Some((p, has_children)) => p.cell_coord && p.global_transform && has_children,
        None => false,
    }
}

} // verus!
