//! The order in which the floating origin is carried through a hierarchy of grids.
//!
//! Each grid records where the floating origin is relative to itself. That position is computed
//! for the floating origin's own grid first, then carried from grid to grid: up to the parent
//! grid, and down to child grids. [`plan_local_origins`] decides the steps; each step computes the
//! origin of one grid from that of a neighboring grid already computed.

use vstd::prelude::*;
use std::collections::{HashMap, HashSet};
use crate::stationary::ancestor;

verus! {

broadcast use vstd::std_specs::hash::group_hash_axioms;

/// The maximum depth of a hierarchy of grids: the walk up from the floating origin's grid stops
/// after this many parents, which guards against a degenerate hierarchy.
pub const MAX_GRID_DEPTH: usize = 1000;

/// One step of carrying the floating origin from a grid to a neighboring grid.
#[derive(Clone, Copy, Debug, PartialEq, Eq, Structural)]
pub enum OriginStep {
    /// Computes the origin of grid `to`, the parent of grid `from`, from that of `from`.
    ToParent { from: u64, to: u64 },
    /// Computes the origin of grid `to`, a child of grid `from`, from that of `from`.
    ToChild { from: u64, to: u64 },
}

/// The grid a step reads.
pub open spec fn step_from(s: OriginStep) -> u64 {
    match s {
        OriginStep::ToParent { from, .. } => from,
        OriginStep::ToChild { from, .. } => from,
    }
}

/// The grid a step writes.
pub open spec fn step_to(s: OriginStep) -> u64 {
    match s {
        OriginStep::ToParent { to, .. } => to,
        OriginStep::ToChild { to, .. } => to,
    }
}

/// A step follows an edge of the hierarchy of grids.
pub open spec fn step_follows_edge(s: OriginStep, parents: Map<u64, u64>, children: Map<u64, Vec<u64>>) -> bool {
    match s {
        OriginStep::ToParent { from, to } => parents.contains_key(from) && parents[from] == to,
        OriginStep::ToChild { from, to } => children.contains_key(from) && children[from]@.contains(to),
    }
}

/// The grids whose origin is known after `steps`: `start` and the grid each step writes.
pub open spec fn reached(start: u64, steps: Seq<OriginStep>) -> Set<u64> {
    Set::new(|g: u64| g == start || exists|i: int| 0 <= i < steps.len() && #[trigger] step_to(steps[i]) == g)
}

/// Each step follows an edge, reads a grid whose origin is already known, and writes a grid whose
/// origin was not known: every grid is written at most once, and `start` never.
pub open spec fn plan_ok(start: u64, parents: Map<u64, u64>, children: Map<u64, Vec<u64>>, steps: Seq<OriginStep>) -> bool {
    forall|i: int| 0 <= i < steps.len() ==> {
        &&& step_follows_edge(#[trigger] steps[i], parents, children)
        &&& reached(start, steps.take(i)).contains(step_from(steps[i]))
        &&& !reached(start, steps.take(i)).contains(step_to(steps[i]))
    }
}

/// Every child grid of a grid of `s` is in `s`, but for the grids of `pending`.
pub open spec fn closed_under_children(s: Set<u64>, children: Map<u64, Vec<u64>>, pending: Seq<u64>) -> bool {
    forall|g: u64, c: u64| #![trigger s.contains(g), children[g]@.contains(c)]
        s.contains(g) && !pending.contains(g) && children.contains_key(g) && children[g]@.contains(c) ==> s.contains(c)
}

/// Adding a step adds the grid it writes.
proof fn lemma_reached_push(start: u64, steps: Seq<OriginStep>, s: OriginStep)
    ensures
        reached(start, steps.push(s)) == reached(start, steps).insert(step_to(s)),
        steps.push(s).take(steps.len() as int) == steps,
{
    assert(steps.push(s).take(steps.len() as int) =~= steps);
    assert forall|g: u64| #[trigger] reached(start, steps.push(s)).contains(g)
        <==> reached(start, steps).insert(step_to(s)).contains(g) by {
        if reached(start, steps.push(s)).contains(g) && g != start && g != step_to(s) {
            let i = choose|i: int| 0 <= i < steps.push(s).len() && #[trigger] step_to(steps.push(s)[i]) == g;
            assert(i < steps.len());
            assert(step_to(steps[i]) == g);
        }
        if reached(start, steps).contains(g) && g != start {
            let i = choose|i: int| 0 <= i < steps.len() && #[trigger] step_to(steps[i]) == g;
            assert(step_to(steps.push(s)[i]) == g);
        }
        if g == step_to(s) {
            assert(step_to(steps.push(s)[steps.len() as int]) == g);
        }
    }
    assert(reached(start, steps.push(s)) =~= reached(start, steps).insert(step_to(s)));
}

/// A step that follows an edge from a reached grid to a grid not reached extends a plan.
proof fn lemma_plan_push(start: u64, parents: Map<u64, u64>, children: Map<u64, Vec<u64>>, steps: Seq<OriginStep>, s: OriginStep)
    requires
        plan_ok(start, parents, children, steps),
        step_follows_edge(s, parents, children),
        reached(start, steps).contains(step_from(s)),
        !reached(start, steps).contains(step_to(s)),
    ensures
        plan_ok(start, parents, children, steps.push(s)),
        reached(start, steps.push(s)) == reached(start, steps).insert(step_to(s)),
{
    lemma_reached_push(start, steps, s);
    let t = steps.push(s);
    assert forall|i: int| 0 <= i < t.len() implies {
        &&& step_follows_edge(#[trigger] t[i], parents, children)
        &&& reached(start, t.take(i)).contains(step_from(t[i]))
        &&& !reached(start, t.take(i)).contains(step_to(t[i]))
    } by {
        if i < steps.len() {
            assert(t.take(i) =~= steps.take(i));
            assert(t[i] == steps[i]);
        }
    }
}

/// Carries the floating origin from a step's source to its target: pushes the step, marks its
/// target reached, and queues it for its children when `queue` holds.
fn push_step(
    steps: &mut Vec<OriginStep>,
    visited: &mut HashSet<u64>,
    stack: &mut Vec<u64>,
    s: OriginStep,
    to: u64,
    queue: bool,
    Ghost(start): Ghost<u64>,
    Ghost(parents): Ghost<Map<u64, u64>>,
    Ghost(children): Ghost<Map<u64, Vec<u64>>>,
)
    requires
        to == step_to(s),
        plan_ok(start, parents, children, old(steps)@),
        old(visited)@ == reached(start, old(steps)@),
        step_follows_edge(s, parents, children),
        old(visited)@.contains(step_from(s)),
        !old(visited)@.contains(to),
    ensures
        final(steps)@ == old(steps)@.push(s),
        plan_ok(start, parents, children, final(steps)@),
        final(visited)@ == old(visited)@.insert(to),
        final(visited)@ == reached(start, final(steps)@),
        final(stack)@ == if queue { old(stack)@.push(to) } else { old(stack)@ },
{
    proof {
        lemma_plan_push(start, parents, children, steps@, s);
    }
    steps.push(s);
    visited.insert(to);
    if queue {
        stack.push(to);
    }
}


/// What the walk keeps between steps: a plan, the grids it reached, all of them grids of the
/// hierarchy, and the queue of reached grids whose children are still to be visited, each once.
pub open spec fn walk_state(
    start: u64,
    parents: Map<u64, u64>,
    children: Map<u64, Vec<u64>>,
    steps: Seq<OriginStep>,
    visited: Set<u64>,
    stack: Seq<u64>,
) -> bool {
    &&& plan_ok(start, parents, children, steps)
    &&& visited == reached(start, steps)
    &&& visited.subset_of(children.dom())
    &&& stack.no_duplicates()
    &&& forall|i: int| 0 <= i < stack.len() ==> visited.contains(#[trigger] stack[i])
    &&& closed_under_children(visited, children, stack)
}

/// Visits the children of grid `g` not yet reached: each gets its origin from `g` and is queued
/// for its own children.
fn visit_children(
    g: u64,
    kids: &Vec<u64>,
    steps: &mut Vec<OriginStep>,
    visited: &mut HashSet<u64>,
    stack: &mut Vec<u64>,
    Ghost(start): Ghost<u64>,
    Ghost(parents): Ghost<Map<u64, u64>>,
    Ghost(children): Ghost<Map<u64, Vec<u64>>>,
)
    requires
        children.dom().finite(),
        children.contains_key(g),
        children[g] == *kids,
        forall|a: u64, c: u64| #![trigger children[a]@.contains(c)]
            children.contains_key(a) && children[a]@.contains(c) ==> children.contains_key(c),
        walk_state(start, parents, children, old(steps)@, old(visited)@, old(stack)@.push(g)),
        !old(stack)@.contains(g),
    ensures
        walk_state(start, parents, children, final(steps)@, final(visited)@, final(stack)@),
        !final(stack)@.contains(g) || old(stack)@.contains(g),
        final(stack)@.len() >= old(stack)@.len(),
        final(visited)@.len() == old(visited)@.len() + (final(stack)@.len() - old(stack)@.len()),
        old(visited)@.subset_of(final(visited)@),
{
    let ghost stack0 = stack@;
    let ghost visited0 = visited@;
    proof {
        vstd::set_lib::lemma_len_subset(visited@, children.dom());
        assert forall|a: u64, c: u64| #![trigger visited@.contains(a), children[a]@.contains(c)]
            visited@.contains(a) && !stack@.contains(a) && a != g && children.contains_key(a)
            && children[a]@.contains(c) implies visited@.contains(c) by {
            assert(!stack@.push(g).contains(a));
        }
        assert forall|i: int| 0 <= i < stack@.len() implies visited@.contains(#[trigger] stack@[i]) by {
            assert(stack@.push(g)[i] == stack@[i]);
        }
        assert(stack@.push(g)[stack@.len() as int] == g);
        assert(stack@.no_duplicates()) by {
            assert forall|i: int, j: int| 0 <= i < j < stack@.len() implies stack@[i] != stack@[j] by {
                assert(stack@.push(g)[i] == stack@[i]);
                assert(stack@.push(g)[j] == stack@[j]);
            }
        }
    }
    let mut i: usize = 0;
    while i < kids.len()
        invariant
            children.contains_key(g),
            children[g] == *kids,
            forall|a: u64, c: u64| #![trigger children[a]@.contains(c)]
                children.contains_key(a) && children[a]@.contains(c) ==> children.contains_key(c),
            0 <= i <= kids@.len(),
            plan_ok(start, parents, children, steps@),
            visited@ == reached(start, steps@),
            visited@.subset_of(children.dom()),
            visited@.contains(g),
            visited@.finite(),
            stack@.no_duplicates(),
            !stack@.contains(g) || stack0.contains(g),
            !stack0.contains(g),
            forall|j: int| 0 <= j < stack@.len() ==> visited@.contains(#[trigger] stack@[j]),
            forall|a: u64, c: u64| #![trigger visited@.contains(a), children[a]@.contains(c)]
                visited@.contains(a) && !stack@.contains(a) && a != g && children.contains_key(a)
                && children[a]@.contains(c) ==> visited@.contains(c),
            forall|j: int| 0 <= j < i ==> visited@.contains(#[trigger] kids@[j]),
            stack@.len() >= stack0.len(),
            visited@.len() == visited0.len() + (stack@.len() - stack0.len()),
            visited0.subset_of(visited@),
            stack@.take(stack0.len() as int) == stack0,
        decreases kids@.len() - i,
    {
        let c = kids[i];
        if !visited.contains(&c) {
            proof {
                assert(children[g]@.contains(c));
                assert(!stack@.contains(c));
            }
            let ghost old_stack = stack@;
            push_step(steps, visited, stack, OriginStep::ToChild { from: g, to: c }, c, true,
                Ghost(start), Ghost(parents), Ghost(children));
            proof {
                assert(stack@ == old_stack.push(c));
                assert(stack@.take(stack0.len() as int) =~= old_stack.take(stack0.len() as int));
                assert forall|j: int| 0 <= j < stack@.len() implies visited@.contains(#[trigger] stack@[j]) by {
                    if j < old_stack.len() {
                        assert(old_stack[j] == stack@[j]);
                    }
                }
                assert(stack@.no_duplicates()) by {
                    assert forall|x: int, y: int| 0 <= x < y < stack@.len() implies stack@[x] != stack@[y] by {
                        if y == old_stack.len() {
                            assert(old_stack.contains(old_stack[x]));
                        }
                    }
                }
                assert forall|a: u64, d: u64| #![trigger visited@.contains(a), children[a]@.contains(d)]
                    visited@.contains(a) && !stack@.contains(a) && a != g && children.contains_key(a)
                    && children[a]@.contains(d) implies visited@.contains(d) by {
                    if a != c {
                        assert(!old_stack.contains(a)) by {
                            if old_stack.contains(a) {
                                let j = choose|j: int| 0 <= j < old_stack.len() && old_stack[j] == a;
                                assert(stack@[j] == a);
                            }
                        }
                    } else {
                        assert(stack@[old_stack.len() as int] == c);
                    }
                }
                if stack@.contains(g) {
                    let j = choose|j: int| 0 <= j < stack@.len() && stack@[j] == g;
                    if j < old_stack.len() {
                        assert(old_stack[j] == g);
                    }
                }
            }
        }
        i += 1;
    }
    proof {
        assert forall|a: u64, c: u64| #![trigger visited@.contains(a), children[a]@.contains(c)]
            visited@.contains(a) && !stack@.contains(a) && children.contains_key(a)
            && children[a]@.contains(c) implies visited@.contains(c) by {
            if a == g {
                let j = choose|j: int| 0 <= j < kids@.len() && kids@[j] == c;
            }
        }
    }
}

/// Past a missing ancestor there are no more ancestors.
proof fn lemma_ancestor_none(parents: Map<u64, u64>, g: u64, k: nat, m: nat)
    requires
        ancestor(parents, g, k) is None,
        k <= m,
    ensures
        ancestor(parents, g, m) is None,
    decreases m - k,
{
    if k < m {
        lemma_ancestor_none(parents, g, k, (m - 1) as nat);
    }
}

/// Plans how the floating origin is carried from its grid, `start`, to the other grids of its
/// hierarchy. `parent_grids` gives the parent grid of each grid that has one, and `child_grids`
/// the child grids of each grid, for every grid of the hierarchy.
///
/// The walk goes up from `start` one parent at a time; at each parent it visits the parent, then
/// the parent's other children, then, depth first, the children of every grid visited. Each step
/// computes the origin of one grid from that of a grid visited before it, along an edge of the
/// hierarchy, and no grid is visited twice. Unless the walk went up [`MAX_GRID_DEPTH`] parents
/// without reaching a root, which is reported by the returned flag, it reaches every ancestor of
/// `start` and every child of every grid it reaches.
pub fn plan_local_origins(
    start: u64,
    parent_grids: &HashMap<u64, u64>,
    child_grids: &HashMap<u64, Vec<u64>>,
) -> (r: (Vec<OriginStep>, bool))
    requires
        child_grids@.contains_key(start),
        forall|a: u64, c: u64| #![trigger child_grids@[a]@.contains(c)]
            child_grids@.contains_key(a) && child_grids@[a]@.contains(c) ==> child_grids@.contains_key(c),
        forall|a: u64| #[trigger] parent_grids@.contains_key(a) ==> child_grids@.contains_key(parent_grids@[a]),
    ensures
        plan_ok(start, parent_grids@, child_grids@, r.0@),
        !r.1 ==> {
            &&& closed_under_children(reached(start, r.0@), child_grids@, Seq::<u64>::empty())
            &&& forall|k: nat| #[trigger] ancestor(parent_grids@, start, k) matches Some(a)
                ==> reached(start, r.0@).contains(a)
        },
        r.1 ==> ancestor(parent_grids@, start, MAX_GRID_DEPTH as nat) is Some,
{
    let ghost parents = parent_grids@;
    let ghost children = child_grids@;
    let mut steps: Vec<OriginStep> = Vec::new();
    let mut visited: HashSet<u64> = HashSet::new();
    visited.insert(start);
    let mut stack: Vec<u64> = Vec::new();
    stack.push(start);
    let mut this = start;
    let mut level: usize = 0;
    proof {
        assert(reached(start, steps@) =~= Set::<u64>::empty().insert(start));
        assert(stack@ =~= seq![start]);
        assert(stack@[0] == start);
        assert(stack@.contains(start));
        assert(closed_under_children(visited@, children, stack@));
        assert(walk_state(start, parents, children, steps@, visited@, stack@));
    }
    while level < MAX_GRID_DEPTH
        invariant
            parents == parent_grids@,
            children == child_grids@,
            children.dom().finite(),
            forall|a: u64, c: u64| #![trigger children[a]@.contains(c)]
                children.contains_key(a) && children[a]@.contains(c) ==> children.contains_key(c),
            forall|a: u64| #[trigger] parents.contains_key(a) ==> children.contains_key(parents[a]),
            walk_state(start, parents, children, steps@, visited@, stack@),
            level == 0 ==> stack@ == seq![start],
            level > 0 ==> stack@.len() == 0,
            ancestor(parents, start, level as nat) == Some(this),
            forall|k: nat| k <= level ==> (#[trigger] ancestor(parents, start, k) matches Some(a) && visited@.contains(a)),
        decreases MAX_GRID_DEPTH - level,
    {
        proof {
            assert(ancestor(parents, start, level as nat) matches Some(a) && visited@.contains(a));
        }
        match parent_grids.get(&this) {
            Some(p_ref) => {
                let p = *p_ref;
                if !visited.contains(&p) {
                    let ghost visited_before = visited@;
                    let ghost stack_before = stack@;
                    push_step(&mut steps, &mut visited, &mut stack, OriginStep::ToParent { from: this, to: p }, p,
                        false, Ghost(start), Ghost(parents), Ghost(children));
                    proof {
                        assert(stack@ == stack_before);
                        assert(!stack@.contains(p));
                        assert(stack@.push(p)[stack@.len() as int] == p);
                        assert forall|a: u64, c: u64| #![trigger visited@.contains(a), children[a]@.contains(c)]
                            visited@.contains(a) && !stack@.push(p).contains(a) && children.contains_key(a)
                            && children[a]@.contains(c) implies visited@.contains(c) by {
                            assert(a != p);
                            assert(!stack@.contains(a)) by {
                                if stack@.contains(a) {
                                    let j = choose|j: int| 0 <= j < stack@.len() && stack@[j] == a;
                                    assert(stack@.push(p)[j] == a);
                                }
                            }
                            assert(visited_before.contains(a));
                            assert(visited_before.contains(c));
                        }
                        assert forall|i: int| 0 <= i < stack@.push(p).len() implies visited@.contains(#[trigger] stack@.push(p)[i]) by {
                            if i < stack@.len() {
                                assert(stack@.push(p)[i] == stack@[i]);
                            }
                        }
                        assert(stack@.push(p).no_duplicates()) by {
                            assert forall|x: int, y: int| 0 <= x < y < stack@.push(p).len() implies stack@.push(p)[x] != stack@.push(p)[y] by {
                                if y == stack@.len() {
                                    assert(stack@.contains(stack@[x]));
                                } else {
                                    assert(stack@.push(p)[x] == stack@[x]);
                                    assert(stack@.push(p)[y] == stack@[y]);
                                }
                            }
                        }
                    }
                    let siblings = child_grids.get(&p).unwrap();
                    visit_children(p, siblings, &mut steps, &mut visited, &mut stack,
                        Ghost(start), Ghost(parents), Ghost(children));
                }
            },
            None => {},
        }
        while stack.len() > 0
            invariant
                parents == parent_grids@,
                children == child_grids@,
                children.dom().finite(),
                forall|a: u64, c: u64| #![trigger children[a]@.contains(c)]
                    children.contains_key(a) && children[a]@.contains(c) ==> children.contains_key(c),
                forall|a: u64| #[trigger] parents.contains_key(a) ==> children.contains_key(parents[a]),
                walk_state(start, parents, children, steps@, visited@, stack@),
                ancestor(parents, start, level as nat) == Some(this),
                forall|k: nat| k <= level ==> (#[trigger] ancestor(parents, start, k) matches Some(a) && visited@.contains(a)),
                parents.contains_key(this) ==> visited@.contains(parents[this]),
            decreases 2 * (children.dom().len() - visited@.len()) + stack@.len(),
        {
            proof {
                vstd::set_lib::lemma_len_subset(visited@, children.dom());
            }
            let ghost stack0 = stack@;
            let ghost visited0 = visited@;
            let g = stack.pop().unwrap();
            proof {
                assert(stack0 =~= stack@.push(g));
                assert(!stack@.contains(g)) by {
                    if stack@.contains(g) {
                        let j = choose|j: int| 0 <= j < stack@.len() && stack@[j] == g;
                        assert(stack0[j] == stack0[stack@.len() as int]);
                    }
                }
                assert(visited@.contains(g));
            }
            let kids = child_grids.get(&g).unwrap();
            visit_children(g, kids, &mut steps, &mut visited, &mut stack,
                Ghost(start), Ghost(parents), Ghost(children));
            proof {
                vstd::set_lib::lemma_len_subset(visited@, children.dom());
                assert forall|k: nat| k <= level implies (#[trigger] ancestor(parents, start, k) matches Some(a) && visited@.contains(a)) by {
                    assert(ancestor(parents, start, k) matches Some(a) && visited0.contains(a));
                }
            }
        }
        match parent_grids.get(&this) {
            Some(p_ref) => {
                let p = *p_ref;
                proof {
                    assert(ancestor(parents, start, (level + 1) as nat) == Some(p));
                    assert forall|k: nat| k <= level + 1 implies (#[trigger] ancestor(parents, start, k) matches Some(a) && visited@.contains(a)) by {
                        if k <= level {
                            assert(ancestor(parents, start, k) matches Some(a) && visited@.contains(a));
                        }
                    }
                }
                this = p;
                level += 1;
            },
            None => {
                proof {
                    assert(ancestor(parents, start, (level + 1) as nat) is None);
                    assert forall|k: nat| #[trigger] ancestor(parents, start, k) is Some
                        implies reached(start, steps@).contains(ancestor(parents, start, k)->0) by {
                        if k > level {
                            lemma_ancestor_none(parents, start, (level + 1) as nat, k);
                        } else {
                            assert(ancestor(parents, start, k) matches Some(a) && visited@.contains(a));
                        }
                    }
                    assert(stack@ =~= Seq::<u64>::empty());
                }
                return (steps, false);
            },
        }
    }
    (steps, true)
}

} // verus!
