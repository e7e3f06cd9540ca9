//! The floating origin of each big space: the entity that transforms are rendered relative to.

use vstd::prelude::*;

verus! {

/// The number of floating origins whose hierarchy root is `space`, among the first `k` of
/// `origins`, each given with the root of its hierarchy.
pub open spec fn origins_in(origins: Seq<(u64, Option<u64>)>, space: u64, k: int) -> nat
    decreases k,
{
    if k <= 0 {
        0
    } else {
        origins_in(origins, space, k - 1) + if origins[k - 1].1 == Some(space) { 1nat } else { 0nat }
    }
}

/// The last floating origin whose hierarchy root is `space` among the first `k` of `origins`.
pub open spec fn last_origin_in(origins: Seq<(u64, Option<u64>)>, space: u64, k: int) -> Option<u64>
    decreases k,
{
    if k <= 0 {
        None
    } else if origins[k - 1].1 == Some(space) {
        Some(origins[k - 1].0)
    } else {
        last_origin_in(origins, space, k - 1)
    }
}

/// The floating origin that a big space gets: the one floating origin in its hierarchy, or none
/// if its hierarchy holds none or more than one.
pub open spec fn assigned_origin(origins: Seq<(u64, Option<u64>)>, space: u64) -> Option<u64> {
    if origins_in(origins, space, origins.len() as int) == 1 {
        last_origin_in(origins, space, origins.len() as int)
    } else {
        None
    }
}

/// The root of a hierarchy of high precision grids, rendered with a floating origin. It tracks
/// the floating origin inside its hierarchy; there should be exactly one.
#[derive(Clone, Copy, Debug, Default, PartialEq, Eq, Structural)]
pub struct BigSpace {
    /// The entity used as the floating origin within this hierarchy, by its bits.
    pub floating_origin: Option<u64>,
}

impl BigSpace {
    /// Returns this big space's floating origin if it is set and lies in this big space's
    /// hierarchy: `origin_root` is the root of the floating origin's hierarchy, if it has a
    /// parent, and `this_entity` is the entity of this big space.
    pub fn validate_floating_origin(&self, this_entity: u64, origin_root: Option<u64>) -> (r: Option<u64>)
        ensures
            r == if self.floating_origin is Some && origin_root == Some(this_entity) { self.floating_origin } else { None },
    {
        let floating_origin = match self.floating_origin {
            Some(f) => f,
            None => {
                return None;
            },
        };
        let origin_root_entity = match origin_root {
            Some(r) => r,
            None => {
                return None;
            },
        };
        if origin_root_entity == this_entity {
            Some(floating_origin)
        } else {
            None
        }
    }

    /// Finds the floating origin of each big space of `spaces`, given each floating origin with
    /// the root of its hierarchy (none if it has no parent). Returns, for each big space in
    /// order, its floating origin and the number of floating origins found in its hierarchy.
    ///
    /// A big space gets a floating origin only if its hierarchy holds exactly one; with none or
    /// several it gets none, which should be reported as an error.
    pub fn find_floating_origin(spaces: &Vec<u64>, origins: &Vec<(u64, Option<u64>)>) -> (r: Vec<(Option<u64>, usize)>)
        requires
            spaces@.no_duplicates(),
            origins@.len() <= usize::MAX,
        ensures
            r@.len() == spaces@.len(),
            forall|i: int| 0 <= i < spaces@.len() ==> (#[trigger] r@[i]).1 == origins_in(origins@, spaces@[i], origins@.len() as int)
                && r@[i].0 == assigned_origin(origins@, spaces@[i]),
    {
        let mut found: Vec<(Option<u64>, usize)> = Vec::new();
        let mut i: usize = 0;
        while i < spaces.len()
            invariant
                0 <= i <= spaces@.len(),
                found@.len() == i,
                forall|j: int| 0 <= j < i ==> (#[trigger] found@[j]) == (None::<u64>, 0usize),
            decreases spaces@.len() - i,
        {
            found.push((None, 0));
            i += 1;
        }
        let mut k: usize = 0;
        while k < origins.len()
            invariant
                spaces@.no_duplicates(),
                found@.len() == spaces@.len(),
                0 <= k <= origins@.len(),
                forall|j: int| 0 <= j < spaces@.len() ==> (#[trigger] found@[j]).1 == origins_in(origins@, spaces@[j], k as int)
                    && found@[j].0 == if origins_in(origins@, spaces@[j], k as int) == 1 {
                        last_origin_in(origins@, spaces@[j], k as int)
                    } else {
                        None
                    },
            decreases origins@.len() - k,
        {
            let (origin, root) = origins[k];
            let ghost f0 = found@;
            if let Some(root) = root {
                let mut j: usize = 0;
                while j < spaces.len()
                    invariant_except_break
                        0 <= j <= spaces@.len(),
                        forall|q: int| 0 <= q < j ==> spaces@[q] != root,
                    ensures
                        0 <= j <= spaces@.len(),
                        forall|q: int| 0 <= q < j ==> spaces@[q] != root,
                        j < spaces@.len() ==> spaces@[j as int] == root,
                    decreases spaces@.len() - j,
                {
                    if spaces[j] == root {
                        break;
                    }
                    j += 1;
                }
                if j < spaces.len() {
                    let (_, count) = found[j];
                    proof {
                        assert(count == origins_in(origins@, spaces@[j as int], k as int));
                        assert(count <= k) by {
                            lemma_origins_in_bound(origins@, spaces@[j as int], k as int);
                        }
                    }
                    let count = count + 1;
                    let assigned = if count > 1 { None } else { Some(origin) };
                    found.set(j, (assigned, count));
                }
            }
            proof {
                assert forall|q: int| 0 <= q < spaces@.len() implies (#[trigger] found@[q]).1 == origins_in(origins@, spaces@[q], k + 1)
                    && found@[q].0 == if origins_in(origins@, spaces@[q], k + 1) == 1 {
                        last_origin_in(origins@, spaces@[q], k + 1)
                    } else {
                        None
                    } by {
                    if origins@[k as int].1 == Some(spaces@[q]) {
                        assert(root == Some(spaces@[q]));
                    } else {
                        assert(found@[q] == f0[q]);
                    }
                }
            }
            k += 1;
        }
        found
    }
}

/// There are no more floating origins in a hierarchy than floating origins considered.
proof fn lemma_origins_in_bound(origins: Seq<(u64, Option<u64>)>, space: u64, k: int)
    requires
        0 <= k,
    ensures
        origins_in(origins, space, k) <= k,
    decreases k,
{
    if k > 0 {
        lemma_origins_in_bound(origins, space, k - 1);
    }
}

} // verus!
