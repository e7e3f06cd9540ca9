//! Dirty tracking of grid subtrees, which lets propagation skip subtrees that hold only
//! stationary entities.
//!
//! Each grid records the last tick at which a non-stationary entity below it changed. When an
//! entity changes, its parent and the chain of grids above it are marked with the current tick;
//! the walk up stops at the first entity that is not a grid, or at a grid already marked this
//! tick, whose ancestors are then marked too.

use vstd::prelude::*;
use std::collections::HashMap;

verus! {

broadcast use vstd::std_specs::hash::group_hash_axioms;

/// The age beyond which `bevy_ecs` no longer tells changes apart: `u32::MAX - (2 * 518_400_000 - 1)`.
pub open spec fn max_change_age() -> u32 {
    3_258_167_296
}

/// The number of ticks from `then` to `now`, on the wrapping tick counter, capped at
/// [`max_change_age`].
pub open spec fn tick_age(now: u32, then: u32) -> u32 {
    let d = vstd::wrapping::u32_specs::wrapping_sub(now, then);
    if d < max_change_age() {
        d
    } else {
        max_change_age()
    }
}

/// `Tick::is_newer_than` of `bevy_ecs`, on the ticks with these values: whether `tick` is younger,
/// seen from `this_run`, than `last_run`.
#[verifier::external_body]
fn tick_is_newer_than(tick: u32, last_run: u32, this_run: u32) -> (r: bool)
    ensures
        r == (tick_age(this_run, last_run) > tick_age(this_run, tick)),
{
    bevy_ecs::change_detection::Tick::new(tick).is_newer_than(
        bevy_ecs::change_detection::Tick::new(last_run),
        bevy_ecs::change_detection::Tick::new(this_run),
    )
}

/// The last tick at which a non-stationary entity in a grid's subtree changed.
#[derive(Clone, Copy, Debug, Default, PartialEq, Eq, Structural)]
pub struct GridDirtyTick(pub u32);

impl GridDirtyTick {
    /// Whether this subtree has dirty non-stationary entities this frame: whether the recorded
    /// tick is newer than the system's last run, seen from its current run.
    pub fn is_dirty(&self, last_run: u32, this_run: u32) -> (r: bool)
        ensures
            r == (tick_age(this_run, last_run) > tick_age(this_run, self.0)),
    {
        tick_is_newer_than(self.0, last_run, this_run)
    }
}

/// The grids of `d` walked from `a` up through `parents`, marked with tick `t`: the walk marks
/// `a` and goes on to its parent while `a` is a grid not yet marked with `t`. `fuel` bounds the
/// length of the walk.
pub open spec fn mark_chain(d: Map<u64, u32>, parents: Map<u64, u64>, a: u64, t: u32, fuel: nat) -> Map<u64, u32>
    decreases fuel,
{
    if fuel == 0 || !d.contains_key(a) || d[a] == t {
        d
    } else if parents.contains_key(a) {
        mark_chain(d.insert(a, t), parents, parents[a], t, (fuel - 1) as nat)
    } else {
        d.insert(a, t)
    }
}

/// The grids of `d` not marked with tick `t`.
pub open spec fn unmarked(d: Map<u64, u32>, t: u32) -> Set<u64> {
    d.dom().filter(|k: u64| d[k] != t)
}

/// Every grid marked with tick `t` whose parent is a grid has its parent marked too.
pub open spec fn marks_closed_upward(d: Map<u64, u32>, parents: Map<u64, u64>, t: u32) -> bool {
    forall|g: u64| #[trigger] d.contains_key(g) && d[g] == t && parents.contains_key(g)
        && d.contains_key(parents[g]) ==> d[parents[g]] == t
}

/// Marking a grid not yet marked leaves one grid fewer unmarked.
proof fn lemma_unmarked_insert(d: Map<u64, u32>, a: u64, t: u32)
    requires
        d.dom().finite(),
        d.contains_key(a),
        d[a] != t,
    ensures
        unmarked(d.insert(a, t), t) == unmarked(d, t).remove(a),
        unmarked(d, t).contains(a),
        unmarked(d, t).finite(),
        unmarked(d, t).len() <= d.dom().len(),
{
    assert(unmarked(d.insert(a, t), t) =~= unmarked(d, t).remove(a));
    vstd::set_lib::lemma_len_subset(unmarked(d, t), d.dom());
}

/// With enough fuel to mark every unmarked grid, more fuel changes nothing.
proof fn lemma_mark_chain_fuel(d: Map<u64, u32>, parents: Map<u64, u64>, a: u64, t: u32, f1: nat, f2: nat)
    requires
        d.dom().finite(),
        unmarked(d, t).len() <= f1 <= f2,
    ensures
        mark_chain(d, parents, a, t, f1) == mark_chain(d, parents, a, t, f2),
    decreases f1,
{
    if d.contains_key(a) && d[a] != t {
        lemma_unmarked_insert(d, a, t);
        if parents.contains_key(a) {
            lemma_mark_chain_fuel(d.insert(a, t), parents, parents[a], t, (f1 - 1) as nat, (f2 - 1) as nat);
        }
    }
}

/// The marks are closed upward, but for grids whose parent is `a`.
pub open spec fn marks_closed_upward_but(d: Map<u64, u32>, parents: Map<u64, u64>, t: u32, a: u64) -> bool {
    forall|g: u64| #[trigger] d.contains_key(g) && d[g] == t && parents.contains_key(g)
        && d.contains_key(parents[g]) && parents[g] != a ==> d[parents[g]] == t
}

/// Walking up from `a` keeps the grids, marks `a` when it is a grid, keeps every mark, changes
/// nothing but marks, and leaves the marks closed upward when they were but below `a`.
proof fn lemma_mark_chain(d: Map<u64, u32>, parents: Map<u64, u64>, a: u64, t: u32, fuel: nat)
    requires
        d.dom().finite(),
        unmarked(d, t).len() <= fuel,
        marks_closed_upward_but(d, parents, t, a),
    ensures
        mark_chain(d, parents, a, t, fuel).dom() == d.dom(),
        marks_closed_upward(mark_chain(d, parents, a, t, fuel), parents, t),
        d.contains_key(a) ==> mark_chain(d, parents, a, t, fuel)[a] == t,
        forall|k: u64| d.contains_key(k) && d[k] == t ==> #[trigger] mark_chain(d, parents, a, t, fuel)[k] == t,
        forall|k: u64| #[trigger] mark_chain(d, parents, a, t, fuel).contains_key(k)
            && mark_chain(d, parents, a, t, fuel)[k] != t ==> mark_chain(d, parents, a, t, fuel)[k] == d[k],
    decreases fuel,
{
    if d.contains_key(a) && d[a] != t {
        lemma_unmarked_insert(d, a, t);
        let d2 = d.insert(a, t);
        assert(d2.dom() =~= d.dom());
        if parents.contains_key(a) {
            let p = parents[a];
            assert(marks_closed_upward_but(d2, parents, t, p));
            lemma_mark_chain(d2, parents, p, t, (fuel - 1) as nat);
        } else {
            assert(marks_closed_upward(d2, parents, t));
        }
    }
}

/// Walking up keeps the grids and every mark.
proof fn lemma_mark_chain_keeps(d: Map<u64, u32>, parents: Map<u64, u64>, a: u64, t: u32, fuel: nat)
    ensures
        mark_chain(d, parents, a, t, fuel).dom() == d.dom(),
        forall|k: u64| d.contains_key(k) && d[k] == t ==> #[trigger] mark_chain(d, parents, a, t, fuel)[k] == t,
    decreases fuel,
{
    if fuel > 0 && d.contains_key(a) && d[a] != t {
        let d2 = d.insert(a, t);
        assert(d2.dom() =~= d.dom());
        if parents.contains_key(a) {
            lemma_mark_chain_keeps(d2, parents, parents[a], t, (fuel - 1) as nat);
        }
    }
}

/// The grids of `d` marked with tick `t` from each of `starts` in turn.
pub open spec fn mark_all(d: Map<u64, u32>, parents: Map<u64, u64>, starts: Seq<u64>, t: u32) -> Map<u64, u32>
    decreases starts.len(),
{
    if starts.len() == 0 {
        d
    } else {
        let d1 = mark_all(d, parents, starts.drop_last(), t);
        mark_chain(d1, parents, starts.last(), t, d1.dom().len())
    }
}

/// The `k`-th ancestor of `g` through `parents`, if there is one.
pub open spec fn ancestor(parents: Map<u64, u64>, g: u64, k: nat) -> Option<u64>
    decreases k,
{
    if k == 0 {
        Some(g)
    } else {
        match ancestor(parents, g, (k - 1) as nat) {
            Some(a) => if parents.contains_key(a) { Some(parents[a]) } else { None },
            None => None,
        }
    }
}

/// When the marks are closed upward, a grid marked with `t` has every grid above it marked too,
/// up to the first ancestor that is not a grid.
pub proof fn lemma_marked_ancestors(d: Map<u64, u32>, parents: Map<u64, u64>, t: u32, g: u64, k: nat)
    requires
        marks_closed_upward(d, parents, t),
        d.contains_key(g),
        d[g] == t,
        forall|j: nat| j <= k ==> (#[trigger] ancestor(parents, g, j) matches Some(a) && d.contains_key(a)),
    ensures
        ancestor(parents, g, k) matches Some(a) && d[a] == t,
    decreases k,
{
    if k > 0 {
        lemma_marked_ancestors(d, parents, t, g, (k - 1) as nat);
        assert(ancestor(parents, g, (k - 1) as nat) matches Some(a) && d.contains_key(a));
        assert(ancestor(parents, g, k) matches Some(a) && d.contains_key(a));
    }
}

/// Marks `start` and the grids above it with `current_tick`: walks up from `start` through
/// `parents`, marking each grid of `dirty_ticks` met, and stops at the first entity that is not a
/// grid, at the first grid already marked with `current_tick`, or at an entity without a parent.
/// When the marks were closed upward, they stay so, and `start`, if it is a grid, is marked.
pub fn mark_ancestor_grids(
    start: u64,
    current_tick: u32,
    dirty_ticks: &mut HashMap<u64, u32>,
    parents: &HashMap<u64, u64>,
)
    ensures
        final(dirty_ticks)@ == mark_chain(old(dirty_ticks)@, parents@, start, current_tick,
            old(dirty_ticks)@.dom().len()),
        marks_closed_upward(old(dirty_ticks)@, parents@, current_tick) ==> {
            &&& marks_closed_upward(final(dirty_ticks)@, parents@, current_tick)
            &&& old(dirty_ticks)@.contains_key(start) ==> final(dirty_ticks)@[start] == current_tick
        },
{
    let ghost d0 = dirty_ticks@;
    let ghost f0 = d0.dom().len();
    let ghost mut fuel: nat = f0;
    proof {
        vstd::set_lib::lemma_len_subset(unmarked(d0, current_tick), d0.dom());
        if marks_closed_upward(d0, parents@, current_tick) {
            lemma_mark_chain(d0, parents@, start, current_tick, f0);
        }
    }
    let mut ancestor = start;
    loop
        invariant
            dirty_ticks@.dom().finite(),
            unmarked(dirty_ticks@, current_tick).len() <= fuel,
            mark_chain(dirty_ticks@, parents@, ancestor, current_tick, fuel)
                == mark_chain(d0, parents@, start, current_tick, f0),
        ensures
            dirty_ticks@ == mark_chain(d0, parents@, start, current_tick, f0),
        decreases fuel,
    {
        let tick = match dirty_ticks.get(&ancestor) {
            Some(v) => *v,
            None => {
                break;
            },
        };
        if tick == current_tick {
            break;
        }
        let ghost d = dirty_ticks@;
        proof {
            lemma_unmarked_insert(d, ancestor, current_tick);
        }
        dirty_ticks.insert(ancestor, current_tick);
        proof {
            fuel = (fuel - 1) as nat;
        }
        match parents.get(&ancestor) {
            Some(p) => {
                ancestor = *p;
            },
            None => {
                break;
            },
        }
    }
}

/// Marks dirty, with `current_tick`, the grids above each changed non-stationary entity (given by
/// its parent) and each grid whose list of children changed, with the grids above them.
pub fn mark_dirty_subtrees(
    current_tick: u32,
    changed_parents: &Vec<u64>,
    grids_with_changed_children: &Vec<u64>,
    dirty_ticks: &mut HashMap<u64, u32>,
    parents: &HashMap<u64, u64>,
)
    ensures
        final(dirty_ticks)@ == mark_all(old(dirty_ticks)@, parents@,
            changed_parents@ + grids_with_changed_children@, current_tick),
        marks_closed_upward(old(dirty_ticks)@, parents@, current_tick) ==> {
            &&& marks_closed_upward(final(dirty_ticks)@, parents@, current_tick)
            &&& forall|i: int| 0 <= i < changed_parents@.len() && #[trigger] old(dirty_ticks)@.contains_key(changed_parents@[i])
                ==> final(dirty_ticks)@[changed_parents@[i]] == current_tick
            &&& forall|i: int| 0 <= i < grids_with_changed_children@.len()
                && #[trigger] old(dirty_ticks)@.contains_key(grids_with_changed_children@[i])
                ==> final(dirty_ticks)@[grids_with_changed_children@[i]] == current_tick
        },
{
    let ghost d0 = dirty_ticks@;
    let ghost starts = changed_parents@ + grids_with_changed_children@;
    let ghost closed = marks_closed_upward(d0, parents@, current_tick);
    let ghost n1 = changed_parents@.len();
    let mut i: usize = 0;
    proof {
        assert(starts.take(0) =~= Seq::<u64>::empty());
    }
    while i < changed_parents.len()
        invariant
            n1 == changed_parents@.len(),
            starts == changed_parents@ + grids_with_changed_children@,
            closed == marks_closed_upward(d0, parents@, current_tick),
            0 <= i <= n1,
            dirty_ticks@ == mark_all(d0, parents@, starts.take(i as int), current_tick),
            dirty_ticks@.dom() == d0.dom(),
            closed ==> marks_closed_upward(dirty_ticks@, parents@, current_tick),
            closed ==> forall|j: int| 0 <= j < i && #[trigger] d0.contains_key(starts[j])
                ==> dirty_ticks@[starts[j]] == current_tick,
        decreases n1 - i,
    {
        let start = changed_parents[i];
        let ghost d = dirty_ticks@;
        proof {
            assert(start == starts[i as int]);
            assert(starts.take(i + 1).drop_last() =~= starts.take(i as int));
            vstd::set_lib::lemma_len_subset(unmarked(d, current_tick), d.dom());
            if closed {
                lemma_mark_chain(d, parents@, start, current_tick, d.dom().len());
            } else {
                lemma_mark_chain_keeps(d, parents@, start, current_tick, d.dom().len());
            }
        }
        mark_ancestor_grids(start, current_tick, dirty_ticks, parents);
        i += 1;
    }
    let mut k: usize = 0;
    while k < grids_with_changed_children.len()
        invariant
            n1 == changed_parents@.len(),
            starts == changed_parents@ + grids_with_changed_children@,
            closed == marks_closed_upward(d0, parents@, current_tick),
            0 <= k <= grids_with_changed_children@.len(),
            dirty_ticks@ == mark_all(d0, parents@, starts.take(n1 + k), current_tick),
            dirty_ticks@.dom() == d0.dom(),
            closed ==> marks_closed_upward(dirty_ticks@, parents@, current_tick),
            closed ==> forall|j: int| 0 <= j < n1 + k && #[trigger] d0.contains_key(starts[j])
                ==> dirty_ticks@[starts[j]] == current_tick,
        decreases grids_with_changed_children@.len() - k,
    {
        let start = grids_with_changed_children[k];
        let ghost d = dirty_ticks@;
        proof {
            assert(start == starts[n1 + k]);
            assert(starts.take(n1 + k + 1).drop_last() =~= starts.take(n1 + k));
            vstd::set_lib::lemma_len_subset(unmarked(d, current_tick), d.dom());
            if closed {
                lemma_mark_chain(d, parents@, start, current_tick, d.dom().len());
            } else {
                lemma_mark_chain_keeps(d, parents@, start, current_tick, d.dom().len());
            }
        }
        mark_ancestor_grids(start, current_tick, dirty_ticks, parents);
        k += 1;
    }
    proof {
        assert(starts.take(starts.len() as int) =~= starts);
        if closed {
            assert forall|j: int| 0 <= j < changed_parents@.len() && #[trigger] d0.contains_key(changed_parents@[j])
                implies dirty_ticks@[changed_parents@[j]] == current_tick by {
                assert(starts[j] == changed_parents@[j]);
            }
            assert forall|j: int| 0 <= j < grids_with_changed_children@.len()
                && #[trigger] d0.contains_key(grids_with_changed_children@[j])
                implies dirty_ticks@[grids_with_changed_children@[j]] == current_tick by {
                assert(starts[n1 + j] == grids_with_changed_children@[j]);
            }
        }
    }
}

/// The stationary entities to mark initialized: those not yet initialized, given with whether
/// their `Stationary` was added this frame, that have been present for a whole frame.
pub fn stationary_to_initialize(uninitialized: &Vec<(u64, bool)>) -> (r: Vec<u64>)
    ensures
        r@ == uninitialized@.filter(|u: (u64, bool)| !u.1).map_values(|u: (u64, bool)| u.0),
{
    let mut r: Vec<u64> = Vec::new();
    let mut i: usize = 0;
    while i < uninitialized.len()
        invariant
            0 <= i <= uninitialized@.len(),
            r@ == uninitialized@.take(i as int).filter(|u: (u64, bool)| !u.1).map_values(|u: (u64, bool)| u.0),
        decreases uninitialized@.len() - i,
    {
        let (entity, added) = uninitialized[i];
        proof {
            let s = uninitialized@.take(i + 1);
            assert(s.drop_last() =~= uninitialized@.take(i as int));
            uninitialized@.take(i as int).lemma_filter_push(uninitialized@[i as int], |u: (u64, bool)| !u.1);
            assert(s =~= uninitialized@.take(i as int).push(uninitialized@[i as int]));
        }
        if !added {
            r.push(entity);
        }
        i += 1;
    }
    proof {
        assert(uninitialized@.take(uninitialized@.len() as int) =~= uninitialized@);
    }
    r
}

} // verus!
