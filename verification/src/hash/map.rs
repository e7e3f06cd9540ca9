//! The [`GridHashMap`], which maps occupied cells to the entities located in them.

use vstd::prelude::*;
use crate::collections::{
    CellEntryMap, CellHashSet, EntitySet, EntityCellMap, entity_cells, entity_cells_get,
    cell_entries_get, cell_entries_contains, cell_entries_keys, cell_set_clear,
    entity_cells_insert, entity_cells_new, entity_cells_remove,
    cell_entries, cell_entries_insert, cell_entries_new, cell_entries_remove, cell_set,
    cell_set_insert, cell_set_new, cell_set_remove, entity_set, entity_set_insert,
    entity_set_is_empty, entity_set_new, entity_set_remove, entity_set_to_vec,
};
use crate::grid::cell::{CellCoord, cell_wrapping_sub};
use crate::hash::component::{
    CellId, touching, id_key, adjacent_cells, lemma_adjacent_one_ids, lemma_neighbors_symmetric,
    in_cube, lemma_adjacent_cube, lemma_cell_id_ext,
};

verus! {

broadcast use vstd::seq_lib::lemma_seq_contains_after_push;

/// An entry in a [`GridHashMap`], accessed with a [`CellId`].
pub struct GridHashEntry {
    /// All the entities located in this grid cell.
    pub entities: EntitySet,
    /// The occupied cells touching this one.
    pub occupied_neighbors: Vec<CellId>,
}

/// The entities of each entry of a map of entries.
pub open spec fn occupancy_of(m: Map<CellId, GridHashEntry>) -> Map<CellId, Set<u64>> {
    m.map_values(|e: GridHashEntry| entity_set(e.entities))
}

impl GridHashEntry {
    /// Finds the last position of `hash` among the occupied neighbors.
    fn neighbor_index(&self, hash: &CellId) -> (r: Option<usize>)
        ensures
            match r {
                Some(i) => i < self.occupied_neighbors@.len() && self.occupied_neighbors@[i as int] == *hash
                    && forall|j: int| i < j < self.occupied_neighbors@.len() ==> self.occupied_neighbors@[j] != *hash,
                None => !self.occupied_neighbors@.contains(*hash),
            },
    {
        let mut i = self.occupied_neighbors.len();
        while i > 0
            invariant
                i <= self.occupied_neighbors@.len(),
                forall|j: int| i <= j < self.occupied_neighbors@.len() ==> self.occupied_neighbors@[j] != *hash,
            decreases i,
        {
            i = i - 1;
            if self.occupied_neighbors[i] == *hash {
                return Some(i);
            }
        }
        None
    }
}

impl GridHashEntry {
    /// This cell's entry followed by the entries of its occupied neighbors in `map`, which this
    /// entry must belong to. See [`GridHashMap::nearby`].
    pub fn nearby<'a>(&'a self, map: &'a GridHashMap) -> (r: Vec<&'a GridHashEntry>)
        requires
            map.well_formed(),
            forall|i: int| 0 <= i < self.occupied_neighbors@.len() ==>
                map.occupied().contains(#[trigger] self.occupied_neighbors@[i]),
        ensures
            r@.len() == self.occupied_neighbors@.len() + 1,
            *r@[0] == *self,
            forall|i: int| 0 <= i < self.occupied_neighbors@.len() ==>
                *r@[i + 1] == map.entries()[#[trigger] self.occupied_neighbors@[i]],
    {
        map.nearby(self)
    }

    /// The entities located in this cell, each once, in the set's iteration order.
    pub fn entities(&self) -> (r: Vec<u64>)
        ensures
            r@.no_duplicates(),
            r@.to_set() == entity_set(self.entities),
    {
        entity_set_to_vec(&self.entities)
    }
}

impl<'a> Neighbor<'a> {
    /// The entities located in this neighboring cell, each once.
    pub fn entities(&self) -> (r: Vec<u64>)
        ensures
            r@.no_duplicates(),
            r@.to_set() == entity_set(self.1.entities),
    {
        self.1.entities()
    }
}

/// The entities of all the given entries, entry after entry, each entry's entities once each.
pub fn entities_of(entries: &Vec<&GridHashEntry>) -> (r: Vec<u64>)
    ensures
        exists|parts: Seq<Seq<u64>>| {
            &&& parts.len() == entries@.len()
            &&& forall|i: int| 0 <= i < parts.len() ==> (#[trigger] parts[i]).no_duplicates()
                && parts[i].to_set() == entity_set(entries@[i].entities)
            &&& r@ == parts.flatten()
        },
{
    let mut out: Vec<u64> = Vec::new();
    let ghost mut parts: Seq<Seq<u64>> = Seq::empty();
    let mut i: usize = 0;
    while i < entries.len()
        invariant
            0 <= i <= entries@.len(),
            parts.len() == i,
            forall|k: int| 0 <= k < parts.len() ==> (#[trigger] parts[k]).no_duplicates()
                && parts[k].to_set() == entity_set(entries@[k].entities),
            out@ == parts.flatten(),
        decreases entries@.len() - i,
    {
        let part = entries[i].entities();
        let ghost before = parts;
        out.append(&mut part.clone());
        proof {
            parts = parts.push(part@);
            before.lemma_flatten_push(part@);
        }
        i += 1;
    }
    proof {
        assert(exists|parts: Seq<Seq<u64>>| {
            &&& parts.len() == entries@.len()
            &&& forall|i: int| 0 <= i < parts.len() ==> (#[trigger] parts[i]).no_duplicates()
                && parts[i].to_set() == entity_set(entries@[i].entities)
            &&& out@ == parts.flatten()
        }) by {
            assert(parts.len() == entries@.len());
        }
    }
    out
}

/// Removing the only occurrence of `s[i]` from a sequence without duplicates leaves every other
/// element, each once.
proof fn lemma_remove_unique<A>(s: Seq<A>, i: int)
    requires
        s.no_duplicates(),
        0 <= i < s.len(),
    ensures
        s.remove(i).no_duplicates(),
        forall|d: A| #[trigger] s.remove(i).contains(d) <==> (s.contains(d) && d != s[i]),
{
    let r = s.remove(i);
    assert forall|a: int, b: int| 0 <= a < r.len() && 0 <= b < r.len() && a != b implies r[a] != r[b] by {
        let a2 = if a < i { a } else { a + 1 };
        let b2 = if b < i { b } else { b + 1 };
        assert(r[a] == s[a2]);
        assert(r[b] == s[b2]);
    }
    assert forall|d: A| #[trigger] r.contains(d) <==> (s.contains(d) && d != s[i]) by {
        if r.contains(d) {
            let a = choose|a: int| 0 <= a < r.len() && r[a] == d;
            let a2 = if a < i { a } else { a + 1 };
            assert(s[a2] == d);
        }
        if s.contains(d) && d != s[i] {
            let a = choose|a: int| 0 <= a < s.len() && s[a] == d;
            assert(a != i);
            let a2 = if a < i { a } else { a - 1 };
            assert(r[a2] == d);
        }
    }
}

/// Whether `after` is `before` with its one occurrence of `x` taken out, the others in their
/// order; or `before` unchanged when it does not hold `x`.
pub open spec fn unlinked(before: Seq<CellId>, after: Seq<CellId>, x: CellId) -> bool {
    if before.contains(x) {
        exists|i: int| 0 <= i < before.len() && before[i] == x && after == before.remove(i)
    } else {
        after == before
    }
}

/// The primary spatial hash, kept in its own type to uphold the invariants around insertions
/// and removals.
pub(crate) struct InnerGridHashMap {
    pub(crate) inner: CellEntryMap,
    /// Sets of entities to reuse, each of them empty.
    pub(crate) hash_set_pool: Vec<EntitySet>,
    /// Lists of neighbors to reuse, each of them empty.
    pub(crate) neighbor_pool: Vec<Vec<CellId>>,
    /// Cells that are occupied now but were not when the set was last cleared.
    pub(crate) just_inserted: CellHashSet,
    /// Cells that were occupied when the set was last cleared but are not now.
    pub(crate) just_removed: CellHashSet,
    /// The occupied cells when the two sets above were last cleared.
    pub(crate) base: Ghost<Set<CellId>>,
}

impl InnerGridHashMap {
    pub(crate) open spec fn entries(&self) -> Map<CellId, GridHashEntry> {
        cell_entries(self.inner)
    }

    pub(crate) open spec fn occupancy(&self) -> Map<CellId, Set<u64>> {
        occupancy_of(self.entries())
    }

    pub(crate) open spec fn wf(&self) -> bool {
        let m = self.entries();
        &&& m.dom().finite()
        &&& forall|c: CellId| #[trigger] m.contains_key(c) ==> {
            &&& c.wf()
            &&& entity_set(m[c].entities).finite()
            &&& entity_set(m[c].entities) != Set::<u64>::empty()
            &&& m[c].occupied_neighbors@.no_duplicates()
        }
        &&& forall|c: CellId, d: CellId| #[trigger] m.contains_key(c) ==>
            (#[trigger] m[c].occupied_neighbors@.contains(d) <==> (m.contains_key(d) && touching(c, d)))
        &&& forall|i: int| 0 <= i < self.hash_set_pool@.len() ==> entity_set(#[trigger] self.hash_set_pool@[i]) == Set::<u64>::empty()
        &&& forall|i: int| 0 <= i < self.neighbor_pool@.len() ==> (#[trigger] self.neighbor_pool@[i])@.len() == 0
        &&& cell_set(self.just_inserted) == m.dom().difference(self.base@)
        &&& cell_set(self.just_removed) == self.base@.difference(m.dom())
    }

    pub(crate) fn new() -> (r: Self)
        ensures
            r.wf(),
            r.entries().dom() == Set::<CellId>::empty(),
            r.base@ == Set::<CellId>::empty(),
    {
        let r = InnerGridHashMap {
            inner: cell_entries_new(),
            hash_set_pool: Vec::new(),
            neighbor_pool: Vec::new(),
            just_inserted: cell_set_new(),
            just_removed: cell_set_new(),
            base: Ghost(Set::empty()),
        };
        assert(r.entries().dom() =~= Set::<CellId>::empty());
        assert(cell_set(r.just_inserted) =~= r.entries().dom().difference(r.base@));
        assert(cell_set(r.just_removed) =~= r.base@.difference(r.entries().dom()));
        r
    }

    /// Adds `entity` to the entities located in the cell `hash`.
    pub(crate) fn insert(&mut self, entity: u64, hash: CellId)
        requires
            old(self).wf(),
        ensures
            final(self).wf(),
            final(self).base@ == old(self).base@,
            final(self).occupancy() == if old(self).occupancy().contains_key(hash) {
                old(self).occupancy().insert(hash, old(self).occupancy()[hash].insert(entity))
            } else {
                old(self).occupancy().insert(hash, set![entity])
            },
    {
        let ghost before = self.entries();
        match cell_entries_remove(&mut self.inner, &hash) {
            Some(mut entry) => {
                entity_set_insert(&mut entry.entities, entity);
                cell_entries_insert(&mut self.inner, hash, entry);
                proof {
                    let m = self.entries();
                    assert(m == before.insert(hash, entry));
                    assert(m.dom() =~= before.dom());
                    assert(self.occupancy() =~= old(self).occupancy().insert(hash, old(self).occupancy()[hash].insert(entity)));
                    assert forall|c: CellId| #[trigger] m.contains_key(c) implies {
                        &&& c.wf()
                        &&& entity_set(m[c].entities).finite()
                        &&& entity_set(m[c].entities) != Set::<u64>::empty()
                        &&& m[c].occupied_neighbors@.no_duplicates()
                    } by {
                        if c == hash {
                            assert(entity_set(m[c].entities).contains(entity));
                        }
                    }
                    assert forall|c: CellId, d: CellId| #[trigger] m.contains_key(c) implies
                        (#[trigger] m[c].occupied_neighbors@.contains(d) <==> (m.contains_key(d) && touching(c, d))) by {
                    }
                }
            }
            None => {
                let mut entities = match self.hash_set_pool.pop() {
                    Some(set) => set,
                    None => entity_set_new(),
                };
                proof {
                    assert(self.entries() =~= before);
                    assert(entity_set(entities) == Set::<u64>::empty());
                    assert forall|i: int| 0 <= i < self.hash_set_pool@.len() implies
                        entity_set(#[trigger] self.hash_set_pool@[i]) == Set::<u64>::empty() by {
                        assert(self.hash_set_pool@[i] == old(self).hash_set_pool@[i]);
                    }
                }
                entity_set_insert(&mut entities, entity);
                proof {
                    assert(entity_set(entities) =~= set![entity]);
                    assert(entity_set(entities).contains(entity));
                }
                self.insert_entry(hash, entities);
            }
        }
    }

    /// Removes `entity` from the entities located in the cell `old_hash`, removing the entry and
    /// unlinking it from its neighbors once it is empty.
    pub(crate) fn remove(&mut self, entity: u64, old_hash: CellId)
        requires
            old(self).wf(),
        ensures
            final(self).wf(),
            final(self).base@ == old(self).base@,
            final(self).occupancy() == if old(self).occupancy().contains_key(old_hash) {
                if old(self).occupancy()[old_hash].remove(entity) == Set::<u64>::empty() {
                    old(self).occupancy().remove(old_hash)
                } else {
                    old(self).occupancy().insert(old_hash, old(self).occupancy()[old_hash].remove(entity))
                }
            } else {
                old(self).occupancy()
            },
            !old(self).entries().contains_key(old_hash) ==> final(self).entries() == old(self).entries(),
            final(self).entries().contains_key(old_hash) ==> {
                &&& final(self).entries()[old_hash].occupied_neighbors == old(self).entries()[old_hash].occupied_neighbors
                &&& forall|c: CellId| #[trigger] final(self).entries().contains_key(c) && c != old_hash
                    ==> final(self).entries()[c] == old(self).entries()[c]
            },
            !final(self).entries().contains_key(old_hash) ==> forall|c: CellId| #[trigger] final(self).entries().contains_key(c) ==> {
                &&& final(self).entries()[c].entities == old(self).entries()[c].entities
                &&& unlinked(old(self).entries()[c].occupied_neighbors@, final(self).entries()[c].occupied_neighbors@, old_hash)
            },
    {
        let ghost old_entries = self.entries();
        match cell_entries_remove(&mut self.inner, &old_hash) {
            None => {
                proof {
                    assert(self.entries() =~= old_entries);
                }
            }
            Some(mut entry) => {
                entity_set_remove(&mut entry.entities, &entity);
                if !entity_set_is_empty(&entry.entities) {
                    cell_entries_insert(&mut self.inner, old_hash, entry);
                    proof {
                        assert(self.entries() == old_entries.remove(old_hash).insert(old_hash, entry));
                        assert(self.entries().dom() =~= old_entries.dom());
                        assert(self.occupancy() =~= old(self).occupancy().insert(old_hash, old(self).occupancy()[old_hash].remove(entity)));
                    }
                    return;
                }
                let GridHashEntry { entities, occupied_neighbors } = entry;
                let mut occupied_neighbors = occupied_neighbors;
                let ghost list = occupied_neighbors@;
                let ghost dom0 = old_entries.dom();
                let mut k: usize = 0;
                while k < occupied_neighbors.len()
                    invariant
                        old(self).wf(),
                        old_entries == old(self).entries(),
                        old_entries.contains_key(old_hash),
                        list == old_entries[old_hash].occupied_neighbors@,
                        occupied_neighbors@ == list,
                        0 <= k <= list.len(),
                        self.entries().dom() == dom0.remove(old_hash),
                        forall|c: CellId| #[trigger] self.entries().contains_key(c) ==>
                            self.entries()[c].entities == old_entries[c].entities,
                        forall|c: CellId| #[trigger] self.entries().contains_key(c) ==>
                            self.entries()[c].occupied_neighbors@.no_duplicates(),
                        forall|c: CellId, d: CellId| #[trigger] self.entries().contains_key(c) ==>
                            (#[trigger] self.entries()[c].occupied_neighbors@.contains(d) <==>
                                (old_entries[c].occupied_neighbors@.contains(d) && !(d == old_hash && list.take(k as int).contains(c)))),
                        forall|c: CellId| #[trigger] self.entries().contains_key(c) ==>
                            if list.take(k as int).contains(c) {
                                unlinked(old_entries[c].occupied_neighbors@, self.entries()[c].occupied_neighbors@, old_hash)
                            } else {
                                self.entries()[c].occupied_neighbors@ == old_entries[c].occupied_neighbors@
                            },
                        self.hash_set_pool == old(self).hash_set_pool,
                        self.neighbor_pool == old(self).neighbor_pool,
                        self.just_inserted == old(self).just_inserted,
                        self.just_removed == old(self).just_removed,
                        self.base == old(self).base,
                    decreases list.len() - k,
                {
                    let neighbor_hash = occupied_neighbors[k];
                    let ghost before = self.entries();
                    proof {
                        assert(list.contains(neighbor_hash));
                        assert(old_entries.contains_key(neighbor_hash));
                        assert(touching(old_hash, neighbor_hash));
                        lemma_neighbors_symmetric(id_key(old_hash), id_key(neighbor_hash));
                        assert(neighbor_hash != old_hash);
                        assert(old_entries[neighbor_hash].occupied_neighbors@.contains(old_hash));
                        assert(!list.take(k as int).contains(neighbor_hash)) by {
                            if list.take(k as int).contains(neighbor_hash) {
                                let j = choose|j: int| 0 <= j < k && list.take(k as int)[j] == neighbor_hash;
                                assert(list[j] == list[k as int]);
                            }
                        }
                        assert(list.take(k as int + 1) == list.take(k as int).push(neighbor_hash));
                    }
                    if let Some(mut neighbor) = cell_entries_remove(&mut self.inner, &neighbor_hash) {
                        if let Some(index) = neighbor.neighbor_index(&old_hash) {
                            let ghost occ0 = neighbor.occupied_neighbors@;
                            proof {
                                lemma_remove_unique(occ0, index as int);
                            }
                            neighbor.occupied_neighbors.remove(index);
                            cell_entries_insert(&mut self.inner, neighbor_hash, neighbor);
                            proof {
                                let m = self.entries();
                                assert(m == before.remove(neighbor_hash).insert(neighbor_hash, neighbor));
                                assert(m.dom() =~= dom0.remove(old_hash));
                                assert forall|c: CellId, d: CellId| #[trigger] m.contains_key(c) implies
                                    (#[trigger] m[c].occupied_neighbors@.contains(d) <==>
                                        (old_entries[c].occupied_neighbors@.contains(d) && !(d == old_hash && list.take(k as int + 1).contains(c)))) by {
                                    if c == neighbor_hash {
                                        assert(m[c].occupied_neighbors@ == occ0.remove(index as int));
                                    }
                                }
                                assert forall|c: CellId| #[trigger] m.contains_key(c) implies
                                    if list.take(k as int + 1).contains(c) {
                                        unlinked(old_entries[c].occupied_neighbors@, m[c].occupied_neighbors@, old_hash)
                                    } else {
                                        m[c].occupied_neighbors@ == old_entries[c].occupied_neighbors@
                                    } by {
                                    if c == neighbor_hash {
                                        assert(before.contains_key(c));
                                        assert(occ0 == old_entries[c].occupied_neighbors@);
                                        assert(m[c].occupied_neighbors@ == occ0.remove(index as int));
                                    } else {
                                        assert(before.contains_key(c));
                                        assert(list.take(k as int + 1).contains(c) == list.take(k as int).contains(c));
                                    }
                                }
                            }
                        }
                    }
                    k += 1;
                }
                occupied_neighbors.clear();
                self.hash_set_pool.push(entities);
                self.neighbor_pool.push(occupied_neighbors);
                if !cell_set_remove(&mut self.just_inserted, &old_hash) {
                    cell_set_insert(&mut self.just_removed, old_hash);
                }
                proof {
                    let m = self.entries();
                    assert(list.take(list.len() as int) =~= list);
                    assert(m.dom() =~= dom0.remove(old_hash));
                    assert forall|c: CellId, d: CellId| #[trigger] m.contains_key(c) implies
                        (#[trigger] m[c].occupied_neighbors@.contains(d) <==> (m.contains_key(d) && touching(c, d))) by {
                        lemma_neighbors_symmetric(id_key(c), id_key(old_hash));
                        assert(old_entries.contains_key(c));
                        if d == old_hash && touching(c, d) {
                            assert(old_entries[old_hash].occupied_neighbors@.contains(c));
                        }
                    }
                    assert forall|i: int| 0 <= i < self.hash_set_pool@.len() implies
                        entity_set(#[trigger] self.hash_set_pool@[i]) == Set::<u64>::empty() by {
                        if i < old(self).hash_set_pool@.len() {
                            assert(self.hash_set_pool@[i] == old(self).hash_set_pool@[i]);
                        } else {
                            assert(entity_set(entities) =~= Set::<u64>::empty());
                        }
                    }
                    assert forall|i: int| 0 <= i < self.neighbor_pool@.len() implies
                        (#[trigger] self.neighbor_pool@[i])@.len() == 0 by {
                        if i < old(self).neighbor_pool@.len() {
                            assert(self.neighbor_pool@[i] == old(self).neighbor_pool@[i]);
                        }
                    }
                    assert(cell_set(self.just_inserted) =~= m.dom().difference(self.base@));
                    assert(cell_set(self.just_removed) =~= self.base@.difference(m.dom()));
                    assert(old(self).occupancy()[old_hash].remove(entity) =~= Set::<u64>::empty());
                    assert(self.occupancy() =~= old(self).occupancy().remove(old_hash));
                    assert forall|c: CellId| #[trigger] m.contains_key(c) implies
                        unlinked(old_entries[c].occupied_neighbors@, m[c].occupied_neighbors@, old_hash) by {
                        if !list.contains(c) {
                            lemma_neighbors_symmetric(id_key(c), id_key(old_hash));
                            assert(old_entries.contains_key(c));
                            if old_entries[c].occupied_neighbors@.contains(old_hash) {
                                assert(touching(c, old_hash));
                                assert(old_entries[old_hash].occupied_neighbors@.contains(c));
                            }
                        }
                    }
                }
            }
        }
    }

    /// Adds an entry for the newly occupied cell `hash`, linking it with its occupied neighbors.
    fn insert_entry(&mut self, hash: CellId, entities: EntitySet)
        requires
            old(self).wf(),
            !old(self).entries().contains_key(hash),
            entity_set(entities).finite(),
            entity_set(entities) != Set::<u64>::empty(),
        ensures
            final(self).wf(),
            final(self).occupancy() == old(self).occupancy().insert(hash, entity_set(entities)),
            final(self).base@ == old(self).base@,
    {
        proof {
            use_type_invariant(&hash);
        }
        let mut occupied_neighbors: Vec<CellId> = match self.neighbor_pool.pop() {
            Some(v) => v,
            None => Vec::new(),
        };
        let ghost pool0 = self.neighbor_pool@;
        assert(occupied_neighbors@.len() == 0);
        assert(forall|i: int| 0 <= i < pool0.len() ==> (#[trigger] pool0[i])@.len() == 0) by {
            assert forall|i: int| 0 <= i < pool0.len() implies (#[trigger] pool0[i])@.len() == 0 by {
                assert(pool0[i] == old(self).neighbor_pool@[i]);
            }
        }
        let adj = hash.adjacent(1);
        proof {
            lemma_adjacent_one_ids(hash, adj@);
        }
        let ghost old_entries = self.entries();
        let mut k: usize = 0;
        while k < adj.len()
            invariant
                adj@.len() == 26,
                adj@.no_duplicates(),
                forall|j: int| 0 <= j < 26 ==> touching(hash, #[trigger] adj@[j]),
                forall|d: CellId| d.wf() && touching(hash, d) ==> adj@.contains(d),
                0 <= k <= 26,
                old_entries == old(self).entries(),
                old(self).wf(),
                !old_entries.contains_key(hash),
                self.entries().dom() == old_entries.dom(),
                forall|c: CellId| #[trigger] old_entries.contains_key(c) ==>
                    self.entries()[c].entities == old_entries[c].entities,
                forall|c: CellId| #[trigger] old_entries.contains_key(c) ==>
                    self.entries()[c].occupied_neighbors@ == if adj@.take(k as int).contains(c) {
                        old_entries[c].occupied_neighbors@.push(hash)
                    } else {
                        old_entries[c].occupied_neighbors@
                    },
                occupied_neighbors@.no_duplicates(),
                forall|d: CellId| #[trigger] occupied_neighbors@.contains(d) <==>
                    (adj@.take(k as int).contains(d) && old_entries.contains_key(d)),
                self.hash_set_pool == old(self).hash_set_pool,
                self.neighbor_pool@ == pool0,
                forall|i: int| 0 <= i < pool0.len() ==> (#[trigger] pool0[i])@.len() == 0,
                self.just_inserted == old(self).just_inserted,
                self.just_removed == old(self).just_removed,
                self.base == old(self).base,
            decreases 26 - k,
        {
            let n = adj[k];
            let ghost before = self.entries();
            let ghost occ_before = occupied_neighbors@;
            assert(adj@.take(k as int + 1) == adj@.take(k as int).push(n));
            match cell_entries_remove(&mut self.inner, &n) {
                Some(mut entry) => {
                    entry.occupied_neighbors.push(hash);
                    cell_entries_insert(&mut self.inner, n, entry);
                    occupied_neighbors.push(n);
                    proof {
                        assert(!adj@.take(k as int).contains(n)) by {
                            if adj@.take(k as int).contains(n) {
                                let j = choose|j: int| 0 <= j < k && adj@.take(k as int)[j] == n;
                                assert(adj@[j] == adj@[k as int]);
                            }
                        }
                        assert(self.entries() == before.insert(n, entry));
                        assert(self.entries().dom() =~= old_entries.dom());
                        assert(occupied_neighbors@ == occ_before.push(n));
                        assert(!occ_before.contains(n));
                        assert forall|c: CellId| #[trigger] old_entries.contains_key(c) implies
                            (adj@.take(k as int + 1).contains(c) <==> (adj@.take(k as int).contains(c) || c == n)) by {
                        }
                    }
                }
                None => {
                    proof {
                        assert(self.entries() == before.remove(n));
                        assert(self.entries() =~= before);
                        assert forall|c: CellId| #[trigger] old_entries.contains_key(c) implies
                            (adj@.take(k as int + 1).contains(c) <==> adj@.take(k as int).contains(c)) by {
                        }
                    }
                }
            }
            k += 1;
        }
        proof {
            assert(adj@.take(26) =~= adj@);
        }
        let ghost before = self.entries();
        let entry = GridHashEntry { entities, occupied_neighbors };
        cell_entries_insert(&mut self.inner, hash, entry);
        if !cell_set_remove(&mut self.just_removed, &hash) {
            cell_set_insert(&mut self.just_inserted, hash);
        }
        proof {
            let m = self.entries();
            assert(m == before.insert(hash, entry));
            assert(m.dom() =~= old_entries.dom().insert(hash));
            assert forall|c: CellId, d: CellId| #[trigger] m.contains_key(c) implies
                (#[trigger] m[c].occupied_neighbors@.contains(d) <==> (m.contains_key(d) && touching(c, d))) by {
                lemma_neighbors_symmetric(id_key(c), id_key(d));
                lemma_neighbors_symmetric(id_key(c), id_key(hash));
                if c == hash {
                    if touching(hash, d) && old_entries.contains_key(d) {
                        assert(adj@.contains(d));
                    }
                } else {
                    assert(old_entries.contains_key(c));
                    if adj@.contains(c) {
                        assert(m[c].occupied_neighbors@ == old_entries[c].occupied_neighbors@.push(hash));
                    } else {
                        assert(!touching(hash, c));
                    }
                }
            }
            assert forall|c: CellId| #[trigger] m.contains_key(c) implies m[c].occupied_neighbors@.no_duplicates() by {
                if c != hash && adj@.contains(c) {
                    assert(!old_entries[c].occupied_neighbors@.contains(hash));
                    assert(m[c].occupied_neighbors@ == old_entries[c].occupied_neighbors@.push(hash));
                }
            }
            assert(cell_set(self.just_inserted) =~= m.dom().difference(self.base@));
            assert(cell_set(self.just_removed) =~= self.base@.difference(m.dom()));
            assert(self.occupancy() =~= old(self).occupancy().insert(hash, entity_set(entities)));
        }
    }
}

} // verus!

verus! {

/// Applies a sequence of moves to a map from entities to cells, later moves overriding earlier
/// ones.
pub open spec fn apply_moves(m: Map<u64, CellId>, moves: Seq<(u64, CellId)>) -> Map<u64, CellId>
    decreases moves.len(),
{
    if moves.len() == 0 {
        m
    } else {
        apply_moves(m, moves.drop_last()).insert(moves.last().0, moves.last().1)
    }
}

/// Removes a sequence of entities from a map from entities to cells.
pub open spec fn apply_removals(m: Map<u64, CellId>, removed: Seq<u64>) -> Map<u64, CellId>
    decreases removed.len(),
{
    if removed.len() == 0 {
        m
    } else {
        apply_removals(m, removed.drop_last()).remove(removed.last())
    }
}

/// The last move of an entity decides its cell.
proof fn lemma_last_move(m: Map<u64, CellId>, moves: Seq<(u64, CellId)>, i: int)
    requires
        0 <= i < moves.len(),
        forall|j: int| i < j < moves.len() ==> (#[trigger] moves[j]).0 != moves[i].0,
    ensures
        apply_moves(m, moves).contains_key(moves[i].0),
        apply_moves(m, moves)[moves[i].0] == moves[i].1,
    decreases moves.len(),
{
    if i < moves.len() - 1 {
        assert(moves.drop_last()[i] == moves[i]);
        assert forall|j: int| i < j < moves.drop_last().len() implies (#[trigger] moves.drop_last()[j]).0 != moves.drop_last()[i].0 by {
            assert(moves.drop_last()[j] == moves[j]);
        }
        lemma_last_move(m, moves.drop_last(), i);
        assert(moves.last() == moves[moves.len() - 1]);
    }
}

/// An entity removed and not moved afterwards is in no cell.
proof fn lemma_removed_unplaced(m: Map<u64, CellId>, removed: Seq<u64>, moves: Seq<(u64, CellId)>, e: u64)
    requires
        removed.contains(e),
        forall|j: int| 0 <= j < moves.len() ==> (#[trigger] moves[j]).0 != e,
    ensures
        !apply_moves(apply_removals(m, removed), moves).contains_key(e),
    decreases moves.len() + removed.len(),
{
    if moves.len() > 0 {
        assert forall|j: int| 0 <= j < moves.drop_last().len() implies (#[trigger] moves.drop_last()[j]).0 != e by {
            assert(moves.drop_last()[j] == moves[j]);
        }
        lemma_removed_unplaced(m, removed, moves.drop_last(), e);
        assert(moves.last() == moves[moves.len() - 1]);
    } else if removed.last() != e {
        let k = choose|k: int| 0 <= k < removed.len() && removed[k] == e;
        assert(removed.drop_last()[k] == e);
        lemma_removed_unplaced(m, removed.drop_last(), moves, e);
    }
}

/// Removing `entity` from the entities of cell `h` leaves the placement of every other entity.
proof fn lemma_occupancy_remove(occ0: Map<CellId, Set<u64>>, occ1: Map<CellId, Set<u64>>, entity: u64, h: CellId, e: u64, c: CellId)
    requires
        occ1 == if occ0.contains_key(h) {
            if occ0[h].remove(entity) == Set::<u64>::empty() {
                occ0.remove(h)
            } else {
                occ0.insert(h, occ0[h].remove(entity))
            }
        } else {
            occ0
        },
    ensures
        (occ1.contains_key(c) && occ1[c].contains(e)) <==> (occ0.contains_key(c) && occ0[c].contains(e) && !(e == entity && c == h)),
{
    if occ0.contains_key(h) && c == h {
        let s = occ0[h].remove(entity);
        assert(s.contains(e) == (occ0[h].contains(e) && e != entity));
        if s == Set::<u64>::empty() {
            assert(!s.contains(e));
        }
    }
}

/// Adding `entity` to the entities of cell `h` leaves the placement of every other entity.
proof fn lemma_occupancy_insert(occ0: Map<CellId, Set<u64>>, occ1: Map<CellId, Set<u64>>, entity: u64, h: CellId, e: u64, c: CellId)
    requires
        occ1 == if occ0.contains_key(h) {
            occ0.insert(h, occ0[h].insert(entity))
        } else {
            occ0.insert(h, set![entity])
        },
    ensures
        (occ1.contains_key(c) && occ1[c].contains(e)) <==> ((occ0.contains_key(c) && occ0[c].contains(e)) || (e == entity && c == h)),
{
}

/// Whether `p` is a non-empty sequence of occupied cells, each touching the next.
pub open spec fn is_path(occupied: Set<CellId>, p: Seq<CellId>) -> bool {
    &&& p.len() >= 1
    &&& forall|i: int| 0 <= i < p.len() ==> occupied.contains(#[trigger] p[i])
    &&& forall|i: int| 0 <= i < p.len() - 1 ==> touching(#[trigger] p[i], p[i + 1])
}

/// Whether the occupied cell `b` can be reached from `a` by stepping between touching occupied
/// cells.
pub open spec fn reachable(occupied: Set<CellId>, a: CellId, b: CellId) -> bool {
    exists|p: Seq<CellId>| #[trigger] is_path(occupied, p) && p[0] == a && p.last() == b
}

/// A cell is reachable from itself.
pub proof fn lemma_reachable_self(occupied: Set<CellId>, a: CellId)
    requires
        occupied.contains(a),
    ensures
        reachable(occupied, a, a),
{
    let p = seq![a];
    assert(is_path(occupied, p));
}

/// Stepping to a touching occupied cell extends reachability.
pub proof fn lemma_reachable_step(occupied: Set<CellId>, a: CellId, b: CellId, c: CellId)
    requires
        reachable(occupied, a, b),
        occupied.contains(c),
        touching(b, c),
    ensures
        reachable(occupied, a, c),
{
    let p = choose|p: Seq<CellId>| is_path(occupied, p) && p[0] == a && p.last() == b;
    let q = p.push(c);
    assert forall|i: int| 0 <= i < q.len() - 1 implies touching(#[trigger] q[i], q[i + 1]) by {
        if i < p.len() - 1 {
            assert(q[i] == p[i] && q[i + 1] == p[i + 1]);
        } else {
            assert(q[i] == b);
        }
    }
    assert(is_path(occupied, q));
}

/// A set that contains `a` and every occupied cell touching one of its members contains every
/// cell reachable from `a`.
pub proof fn lemma_closed_contains_reachable(occupied: Set<CellId>, s: Set<CellId>, a: CellId, b: CellId)
    requires
        s.contains(a),
        forall|x: CellId, d: CellId| s.contains(x) && occupied.contains(d) && #[trigger] touching(x, d) ==> s.contains(d),
        reachable(occupied, a, b),
    ensures
        s.contains(b),
{
    let p = choose|p: Seq<CellId>| is_path(occupied, p) && p[0] == a && p.last() == b;
    lemma_closed_contains_path(occupied, s, p, p.len() - 1);
}

/// Every cell of a path whose first cell is in a set closed under stepping to touching occupied
/// cells is in that set.
pub proof fn lemma_closed_contains_path(occupied: Set<CellId>, s: Set<CellId>, p: Seq<CellId>, i: int)
    requires
        is_path(occupied, p),
        s.contains(p[0]),
        forall|x: CellId, d: CellId| s.contains(x) && occupied.contains(d) && #[trigger] touching(x, d) ==> s.contains(d),
        0 <= i < p.len(),
    ensures
        s.contains(p[i]),
    decreases i,
{
    if i > 0 {
        lemma_closed_contains_path(occupied, s, p, i - 1);
        assert(touching(p[i - 1], p[i]));
        assert(occupied.contains(p[i]));
    }
}

/// Reachability is symmetric.
pub proof fn lemma_reachable_symmetric(occupied: Set<CellId>, a: CellId, b: CellId)
    requires
        reachable(occupied, a, b),
    ensures
        reachable(occupied, b, a),
{
    let p = choose|p: Seq<CellId>| is_path(occupied, p) && p[0] == a && p.last() == b;
    let q = p.reverse();
    assert forall|i: int| 0 <= i < q.len() - 1 implies touching(#[trigger] q[i], q[i + 1]) by {
        let j = p.len() - 2 - i;
        assert(q[i] == p[j + 1] && q[i + 1] == p[j]);
        assert(touching(p[j], p[j + 1]));
        lemma_neighbors_symmetric(id_key(p[j]), id_key(p[j + 1]));
    }
    assert forall|i: int| 0 <= i < q.len() implies occupied.contains(#[trigger] q[i]) by {
        assert(q[i] == p[p.len() - 1 - i]);
    }
    assert(is_path(occupied, q));
}

/// Reachability is transitive.
pub proof fn lemma_reachable_trans(occupied: Set<CellId>, a: CellId, b: CellId, c: CellId)
    requires
        reachable(occupied, a, b),
        reachable(occupied, b, c),
    ensures
        reachable(occupied, a, c),
{
    let p = choose|p: Seq<CellId>| is_path(occupied, p) && p[0] == a && p.last() == b;
    let q = choose|q: Seq<CellId>| is_path(occupied, q) && q[0] == b && q.last() == c;
    let r = p + q.drop_first();
    assert forall|i: int| 0 <= i < r.len() implies occupied.contains(#[trigger] r[i]) by {
        if i < p.len() {
            assert(r[i] == p[i]);
        } else {
            assert(r[i] == q[i - p.len() + 1]);
        }
    }
    assert forall|i: int| 0 <= i < r.len() - 1 implies touching(#[trigger] r[i], r[i + 1]) by {
        if i < p.len() - 1 {
            assert(r[i] == p[i] && r[i + 1] == p[i + 1]);
        } else if i == p.len() - 1 {
            assert(r[i] == q[0] && r[i + 1] == q[1]);
        } else {
            assert(r[i] == q[i - p.len() + 1] && r[i + 1] == q[i - p.len() + 2]);
        }
    }
    assert(is_path(occupied, r));
    if q.len() == 1 {
        assert(r.last() == p.last());
    } else {
        assert(r.last() == q.last());
    }
}

/// Reachability among fewer occupied cells implies reachability among more.
pub proof fn lemma_reachable_mono(occupied: Set<CellId>, more: Set<CellId>, a: CellId, b: CellId)
    requires
        reachable(occupied, a, b),
        occupied.subset_of(more),
    ensures
        reachable(more, a, b),
{
    let p = choose|p: Seq<CellId>| is_path(occupied, p) && p[0] == a && p.last() == b;
    assert(is_path(more, p));
}

/// The cells at both ends of a path are occupied.
pub proof fn lemma_reachable_ends(occupied: Set<CellId>, a: CellId, b: CellId)
    requires
        reachable(occupied, a, b),
    ensures
        occupied.contains(a),
        occupied.contains(b),
{
    let p = choose|p: Seq<CellId>| is_path(occupied, p) && p[0] == a && p.last() == b;
    assert(occupied.contains(p[0]));
    assert(occupied.contains(p[p.len() - 1]));
}

/// Whether the cell at position `i` of `s` touches a cell at an earlier position.
pub open spec fn touches_earlier(s: Seq<CellId>, i: int) -> bool {
    exists|j: int| 0 <= j < i && touching(s[j], s[i])
}

/// The position of the first cell among `s[j..i]` that touches `s[i]`, or `i` if none does.
pub open spec fn first_touch_from(s: Seq<CellId>, i: int, j: int) -> int
    decreases i - j,
{
    if j >= i {
        i
    } else if touching(s[j], s[i]) {
        j
    } else {
        first_touch_from(s, i, j + 1)
    }
}

/// The position of the first cell of `s` that touches the cell at position `i`, or `i` if no
/// earlier cell touches it. In a breadth-first traversal this is the cell that discovered it.
pub open spec fn first_toucher(s: Seq<CellId>, i: int) -> int {
    first_touch_from(s, i, 0)
}

/// The first toucher of `s[i]` is `j0` when `s[j0]` touches it and no earlier cell does.
proof fn lemma_first_touch_from(s: Seq<CellId>, i: int, j: int, j0: int)
    requires
        0 <= j <= j0 < i,
        touching(s[j0], s[i]),
        forall|k: int| j <= k < j0 ==> !touching(s[k], s[i]),
    ensures
        first_touch_from(s, i, j) == j0,
    decreases j0 - j,
{
    if j < j0 {
        lemma_first_touch_from(s, i, j + 1, j0);
    }
}

/// Appending a cell does not change the first toucher of an earlier position.
proof fn lemma_first_touch_push(s: Seq<CellId>, x: CellId, i: int, j: int)
    requires
        0 <= j,
        0 <= i < s.len(),
    ensures
        first_touch_from(s.push(x), i, j) == first_touch_from(s, i, j),
    decreases i - j,
{
    if j < i {
        lemma_first_touch_push(s, x, i, j + 1);
    }
}

/// An occupied cell visited by a flood fill, and its entry.
pub struct Neighbor<'a>(pub CellId, pub &'a GridHashEntry);

/// A global spatial hash map for quickly finding the entities located in a grid cell.
pub struct GridHashMap {
    /// The primary hash map for looking up entities by their [`CellId`].
    map: InnerGridHashMap,
    /// The latest cell of each entity that this map knows of, needed to move or remove an entity
    /// once its cell has changed.
    reverse_map: EntityCellMap,
}

impl GridHashMap {
    /// The cell that each entity known to the map is located in.
    pub closed spec fn cell_of(&self) -> Map<u64, CellId> {
        entity_cells(self.reverse_map)
    }

    /// The entry of each occupied cell.
    pub closed spec fn entries(&self) -> Map<CellId, GridHashEntry> {
        self.map.entries()
    }

    /// The occupied cells.
    pub open spec fn occupied(&self) -> Set<CellId> {
        self.entries().dom()
    }

    /// The entities located in each occupied cell.
    pub open spec fn occupancy(&self) -> Map<CellId, Set<u64>> {
        occupancy_of(self.entries())
    }

    /// The cells that became occupied since the last update began.
    pub closed spec fn newly_inserted(&self) -> Set<CellId> {
        cell_set(self.map.just_inserted)
    }

    /// The cells that became empty since the last update began.
    pub closed spec fn newly_removed(&self) -> Set<CellId> {
        cell_set(self.map.just_removed)
    }

    /// The occupied cells when the last update began.
    pub closed spec fn occupied_before(&self) -> Set<CellId> {
        self.map.base@
    }

    /// The map's internal invariants.
    pub closed spec fn well_formed(&self) -> bool {
        &&& self.map.wf()
        &&& forall|e: u64, c: CellId| self.occupancy().contains_key(c) && #[trigger] self.occupancy()[c].contains(e)
            ==> self.cell_of().contains_key(e) && self.cell_of()[e] == c
        &&& forall|e: u64| #[trigger] self.cell_of().contains_key(e)
            ==> self.occupancy().contains_key(self.cell_of()[e]) && self.occupancy()[self.cell_of()[e]].contains(e)
    }

    /// What a well-formed map guarantees: every occupied cell holds exactly the entities located
    /// in it, at least one; every entity known to the map is in an occupied cell; each entry lists
    /// exactly the occupied cells touching it, once each; and the changed cells are the difference
    /// between the occupied cells now and when the last update began.
    pub proof fn lemma_well_formed(&self)
        requires
            self.well_formed(),
        ensures
            self.occupied().finite(),
            forall|c: CellId| #[trigger] self.occupied().contains(c) ==> {
                &&& c.wf()
                &&& self.occupancy()[c].finite()
                &&& self.occupancy()[c] != Set::<u64>::empty()
                &&& self.entries()[c].occupied_neighbors@.no_duplicates()
            },
            forall|c: CellId, d: CellId| #[trigger] self.occupied().contains(c) ==>
                (#[trigger] self.entries()[c].occupied_neighbors@.contains(d) <==> (self.occupied().contains(d) && touching(c, d))),
            forall|e: u64, c: CellId| self.occupied().contains(c) && #[trigger] self.occupancy()[c].contains(e)
                ==> self.cell_of().contains_key(e) && self.cell_of()[e] == c,
            forall|e: u64| #[trigger] self.cell_of().contains_key(e)
                ==> self.occupied().contains(self.cell_of()[e]) && self.occupancy()[self.cell_of()[e]].contains(e),
            self.newly_inserted() == self.occupied().difference(self.occupied_before()),
            self.newly_removed() == self.occupied_before().difference(self.occupied()),
    {
    }

    /// Each entity known to the map is found in exactly one cell: the one it was last placed in.
    pub proof fn lemma_located(&self, e: u64, c: CellId)
        requires
            self.well_formed(),
        ensures
            (self.occupied().contains(c) && self.occupancy()[c].contains(e))
                <==> (self.cell_of().contains_key(e) && self.cell_of()[e] == c),
    {
        self.lemma_well_formed();
    }

    /// Two occupied cells list each other among their occupied neighbors, or neither does.
    pub proof fn lemma_neighbors_mutual(&self, c: CellId, d: CellId)
        requires
            self.well_formed(),
            self.occupied().contains(c),
            self.occupied().contains(d),
        ensures
            self.entries()[c].occupied_neighbors@.contains(d) <==> self.entries()[d].occupied_neighbors@.contains(c),
    {
        self.lemma_well_formed();
        lemma_neighbors_symmetric(id_key(c), id_key(d));
    }

    /// What an update gives back: an entity whose last move in `changed` is to cell `c` is
    /// found in the entry of `c`, and an entity despawned in `removed` and not moved afterwards is
    /// found in no cell. The maps are a map before and after [`GridHashMap::update`].
    pub proof fn lemma_update_read_back(
        before: &GridHashMap,
        after: &GridHashMap,
        removed: Seq<u64>,
        changed: Seq<(u64, CellId)>,
        e: u64,
        c: CellId,
    )
        requires
            after.well_formed(),
            after.cell_of() == apply_moves(apply_removals(before.cell_of(), removed), changed),
        ensures
            (exists|i: int| 0 <= i < changed.len() && changed[i] == (e, c)
                && forall|j: int| i < j < changed.len() ==> (#[trigger] changed[j]).0 != e)
                ==> after.occupied().contains(c) && after.occupancy()[c].contains(e),
            removed.contains(e) && (forall|j: int| 0 <= j < changed.len() ==> (#[trigger] changed[j]).0 != e)
                ==> forall|d: CellId| !(after.occupied().contains(d) && #[trigger] after.occupancy()[d].contains(e)),
    {
        if exists|i: int| 0 <= i < changed.len() && changed[i] == (e, c)
            && forall|j: int| i < j < changed.len() ==> (#[trigger] changed[j]).0 != e {
            let i = choose|i: int| 0 <= i < changed.len() && changed[i] == (e, c)
                && forall|j: int| i < j < changed.len() ==> (#[trigger] changed[j]).0 != e;
            lemma_last_move(apply_removals(before.cell_of(), removed), changed, i);
            after.lemma_located(e, c);
        }
        if removed.contains(e) && (forall|j: int| 0 <= j < changed.len() ==> (#[trigger] changed[j]).0 != e) {
            lemma_removed_unplaced(before.cell_of(), removed, changed, e);
            assert forall|d: CellId| !(after.occupied().contains(d) && #[trigger] after.occupancy()[d].contains(e)) by {
                after.lemma_located(e, d);
            }
        }
    }

    /// Creates an empty map.
    pub fn new() -> (r: Self)
        ensures
            r.well_formed(),
            r.cell_of().dom() == Set::<u64>::empty(),
            r.occupied() == Set::<CellId>::empty(),
            r.newly_inserted() == Set::<CellId>::empty(),
            r.newly_removed() == Set::<CellId>::empty(),
    {
        let r = GridHashMap { map: InnerGridHashMap::new(), reverse_map: entity_cells_new() };
        assert(cell_set(r.map.just_inserted) =~= Set::<CellId>::empty());
        assert(cell_set(r.map.just_removed) =~= Set::<CellId>::empty());
        r
    }

    /// Moves `entity` to the cell `hash`, or adds it there if the map did not know it.
    fn insert(&mut self, entity: u64, hash: CellId)
        requires
            old(self).well_formed(),
        ensures
            final(self).well_formed(),
            final(self).cell_of() == old(self).cell_of().insert(entity, hash),
            final(self).occupied_before() == old(self).occupied_before(),
    {
        proof {
            use_type_invariant(&hash);
        }
        let ghost occ0 = self.occupancy();
        match entity_cells_get(&self.reverse_map, &entity) {
            Some(old_hash) => {
                if hash == old_hash {
                    proof {
                        assert(self.cell_of().insert(entity, hash) =~= self.cell_of());
                    }
                    return;
                }
                self.map.remove(entity, old_hash);
                entity_cells_insert(&mut self.reverse_map, entity, hash);
            }
            None => {
                entity_cells_insert(&mut self.reverse_map, entity, hash);
            }
        }
        let ghost occ1 = self.occupancy();
        self.map.insert(entity, hash);
        proof {
            let cell_of = self.cell_of();
            let occ2 = self.occupancy();
            let had = old(self).cell_of().contains_key(entity);
            let old_hash = old(self).cell_of()[entity];
            assert forall|e: u64, c: CellId| occ2.contains_key(c) && #[trigger] occ2[c].contains(e)
                implies cell_of.contains_key(e) && cell_of[e] == c by {
                lemma_occupancy_insert(occ1, occ2, entity, hash, e, c);
                if !(e == entity && c == hash) {
                    if had && old_hash != hash {
                        lemma_occupancy_remove(occ0, occ1, entity, old_hash, e, c);
                    }
                }
            }
            assert forall|e: u64| #[trigger] cell_of.contains_key(e)
                implies occ2.contains_key(cell_of[e]) && occ2[cell_of[e]].contains(e) by {
                let c = cell_of[e];
                lemma_occupancy_insert(occ1, occ2, entity, hash, e, c);
                if e != entity {
                    assert(old(self).cell_of().contains_key(e));
                    if had && old_hash != hash {
                        lemma_occupancy_remove(occ0, occ1, entity, old_hash, e, c);
                    }
                }
            }
        }
    }

    /// Removes `entity` from the map, if the map knows it.
    fn remove(&mut self, entity: u64)
        requires
            old(self).well_formed(),
        ensures
            final(self).well_formed(),
            final(self).cell_of() == old(self).cell_of().remove(entity),
            final(self).occupied_before() == old(self).occupied_before(),
    {
        let ghost occ0 = self.occupancy();
        match entity_cells_remove(&mut self.reverse_map, &entity) {
            Some(old_hash) => {
                self.map.remove(entity, old_hash);
                proof {
                    let cell_of = self.cell_of();
                    let occ1 = self.occupancy();
                    assert forall|e: u64, c: CellId| occ1.contains_key(c) && #[trigger] occ1[c].contains(e)
                        implies cell_of.contains_key(e) && cell_of[e] == c by {
                        lemma_occupancy_remove(occ0, occ1, entity, old_hash, e, c);
                    }
                    assert forall|e: u64| #[trigger] cell_of.contains_key(e)
                        implies occ1.contains_key(cell_of[e]) && occ1[cell_of[e]].contains(e) by {
                        let c = cell_of[e];
                        assert(old(self).cell_of().contains_key(e));
                        lemma_occupancy_remove(occ0, occ1, entity, old_hash, e, c);
                    }
                }
            }
            None => {
                proof {
                    assert(self.cell_of() =~= old(self).cell_of().remove(entity));
                }
            }
        }
    }

    /// Applies one update of the spatial hash: forgets the despawned `removed` entities, then
    /// moves each entity of `changed` to its current cell, in order. The sets of cells that became
    /// occupied or empty are recomputed relative to the occupied cells before this update.
    pub fn update(&mut self, removed: &Vec<u64>, changed: &Vec<(u64, CellId)>)
        requires
            old(self).well_formed(),
        ensures
            final(self).well_formed(),
            final(self).cell_of() == apply_moves(apply_removals(old(self).cell_of(), removed@), changed@),
            final(self).occupied_before() == old(self).occupied(),
            final(self).newly_inserted() == final(self).occupied().difference(old(self).occupied()),
            final(self).newly_removed() == old(self).occupied().difference(final(self).occupied()),
    {
        cell_set_clear(&mut self.map.just_inserted);
        cell_set_clear(&mut self.map.just_removed);
        self.map.base = Ghost(self.map.entries().dom());
        proof {
            assert(cell_set(self.map.just_inserted) =~= self.map.entries().dom().difference(self.map.base@));
            assert(cell_set(self.map.just_removed) =~= self.map.base@.difference(self.map.entries().dom()));
            assert(self.map.entries() == old(self).map.entries());
            assert(self.occupancy() == old(self).occupancy());
            assert(self.cell_of() == old(self).cell_of());
            assert(self.map.wf());
        }
        let mut i: usize = 0;
        while i < removed.len()
            invariant
                self.well_formed(),
                0 <= i <= removed@.len(),
                self.cell_of() == apply_removals(old(self).cell_of(), removed@.take(i as int)),
                self.occupied_before() == old(self).occupied(),
            decreases removed@.len() - i,
        {
            self.remove(removed[i]);
            proof {
                assert(removed@.take(i as int + 1).drop_last() =~= removed@.take(i as int));
            }
            i += 1;
        }
        proof {
            assert(removed@.take(removed@.len() as int) =~= removed@);
        }
        let ghost after_removals = self.cell_of();
        let mut j: usize = 0;
        while j < changed.len()
            invariant
                self.well_formed(),
                0 <= j <= changed@.len(),
                after_removals == apply_removals(old(self).cell_of(), removed@),
                self.cell_of() == apply_moves(after_removals, changed@.take(j as int)),
                self.occupied_before() == old(self).occupied(),
            decreases changed@.len() - j,
        {
            let (entity, hash) = changed[j];
            self.insert(entity, hash);
            proof {
                assert(changed@.take(j as int + 1).drop_last() =~= changed@.take(j as int));
            }
            j += 1;
        }
        proof {
            assert(changed@.take(changed@.len() as int) =~= changed@);
            self.lemma_well_formed();
        }
    }

    /// Returns the entry of the cell `hash`: the entities located in it and its occupied
    /// neighbors, or `None` if no entity is located in it.
    pub fn get(&self, hash: &CellId) -> (r: Option<&GridHashEntry>)
        requires
            self.well_formed(),
        ensures
            r is Some <==> self.occupied().contains(*hash),
            r matches Some(e) ==> *e == self.entries()[*hash],
    {
        cell_entries_get(&self.map.inner, hash)
    }

    /// Returns `true` if the cell `hash` is occupied.
    pub fn contains(&self, hash: &CellId) -> (r: bool)
        requires
            self.well_formed(),
        ensures
            r == self.occupied().contains(*hash),
    {
        cell_entries_contains(&self.map.inner, hash)
    }

    /// All occupied cells and their entries, in the map's iteration order.
    pub fn all_entries(&self) -> (r: Vec<(CellId, &GridHashEntry)>)
        requires
            self.well_formed(),
        ensures
            r@.len() == self.occupied().len(),
            forall|i: int, j: int| 0 <= i < j < r@.len() ==> r@[i].0 != r@[j].0,
            forall|i: int| 0 <= i < r@.len() ==> self.occupied().contains((#[trigger] r@[i]).0)
                && *r@[i].1 == self.entries()[r@[i].0],
            forall|c: CellId| #[trigger] self.occupied().contains(c) ==> exists|i: int| 0 <= i < r@.len() && r@[i].0 == c,
    {
        let keys = cell_entries_keys(&self.map.inner);
        let mut out: Vec<(CellId, &GridHashEntry)> = Vec::new();
        let mut i: usize = 0;
        while i < keys.len()
            invariant
                self.well_formed(),
                keys@.no_duplicates(),
                keys@.to_set() == self.occupied(),
                0 <= i <= keys@.len(),
                out@.len() == i,
                forall|k: int| 0 <= k < i ==> (#[trigger] out@[k]).0 == keys@[k] && *out@[k].1 == self.entries()[keys@[k]],
            decreases keys@.len() - i,
        {
            let c = keys[i];
            proof {
                assert(keys@.to_set().contains(c));
            }
            match cell_entries_get(&self.map.inner, &c) {
                Some(e) => {
                    out.push((c, e));
                }
                None => {}
            }
            i += 1;
        }
        proof {
            keys@.unique_seq_to_set();
            assert forall|c: CellId| #[trigger] self.occupied().contains(c) implies exists|i: int| 0 <= i < out@.len() && out@[i].0 == c by {
                assert(keys@.to_set().contains(c));
                let k = choose|k: int| 0 <= k < keys@.len() && keys@[k] == c;
                assert(out@[k].0 == c);
            }
            assert forall|i: int| 0 <= i < out@.len() implies self.occupied().contains((#[trigger] out@[i]).0) by {
                assert(keys@.to_set().contains(keys@[i]));
            }
        }
        out
    }

    /// This cell's entry followed by the entries of its occupied neighbors.
    ///
    /// Entries cache their occupied neighbors as the map is updated, which makes this faster than
    /// computing all neighbor identifiers and checking whether they exist. The entry must belong
    /// to this map.
    pub fn nearby<'a>(&'a self, entry: &'a GridHashEntry) -> (r: Vec<&'a GridHashEntry>)
        requires
            self.well_formed(),
            forall|i: int| 0 <= i < entry.occupied_neighbors@.len() ==>
                self.occupied().contains(#[trigger] entry.occupied_neighbors@[i]),
        ensures
            r@.len() == entry.occupied_neighbors@.len() + 1,
            *r@[0] == *entry,
            forall|i: int| 0 <= i < entry.occupied_neighbors@.len() ==>
                *r@[i + 1] == self.entries()[#[trigger] entry.occupied_neighbors@[i]],
    {
        let mut out: Vec<&'a GridHashEntry> = Vec::new();
        out.push(entry);
        let mut i: usize = 0;
        while i < entry.occupied_neighbors.len()
            invariant
                self.well_formed(),
                forall|k: int| 0 <= k < entry.occupied_neighbors@.len() ==>
                    self.occupied().contains(#[trigger] entry.occupied_neighbors@[k]),
                0 <= i <= entry.occupied_neighbors@.len(),
                out@.len() == i + 1,
                *out@[0] == *entry,
                forall|k: int| 0 <= k < i ==> *out@[k + 1] == self.entries()[#[trigger] entry.occupied_neighbors@[k]],
            decreases entry.occupied_neighbors@.len() - i,
        {
            let n = &entry.occupied_neighbors[i];
            match cell_entries_get(&self.map.inner, n) {
                Some(e) => {
                    out.push(e);
                }
                None => {}
            }
            i += 1;
        }
        out
    }

    /// The cells that were empty before the last update and are occupied now.
    pub fn just_inserted(&self) -> (r: &CellHashSet)
        requires
            self.well_formed(),
        ensures
            cell_set(*r) == self.newly_inserted(),
    {
        &self.map.just_inserted
    }

    /// The cells that were occupied before the last update and are empty now.
    pub fn just_removed(&self) -> (r: &CellHashSet)
        requires
            self.well_formed(),
        ensures
            cell_set(*r) == self.newly_removed(),
    {
        &self.map.just_removed
    }

    /// Whether `order` lists every cell reachable from `seed` exactly once, in the order of a
    /// breadth-first traversal from `seed`; or is empty when `seed` is not occupied.
    ///
    /// Breadth first: each cell after the first touches an earlier one, and the first earlier
    /// cell that touches a cell (the one that discovered it) never comes later than the one that
    /// discovered a cell listed after it.
    pub open spec fn is_flood_order(&self, seed: CellId, order: Seq<CellId>) -> bool {
        if self.occupied().contains(seed) {
            &&& order.len() >= 1
            &&& order[0] == seed
            &&& order.no_duplicates()
            &&& forall|c: CellId| order.contains(c) <==> reachable(self.occupied(), seed, c)
            &&& forall|i: int| 1 <= i < order.len() ==> #[trigger] touches_earlier(order, i)
            &&& forall|i: int, j: int| 1 <= i <= j < order.len()
                ==> #[trigger] first_toucher(order, i) <= #[trigger] first_toucher(order, j)
        } else {
            order.len() == 0
        }
    }

    /// Breadth first traversal of the occupied cells connected to `seed`.
    fn flood_order(&self, seed: &CellId) -> (r: Vec<CellId>)
        requires
            self.well_formed(),
        ensures
            self.is_flood_order(*seed, r@),
    {
        let mut queue: Vec<CellId> = Vec::new();
        if !cell_entries_contains(&self.map.inner, seed) {
            return queue;
        }
        proof {
            self.lemma_well_formed();
            lemma_reachable_self(self.occupied(), *seed);
        }
        let ghost occ = self.occupied();
        let mut visited = cell_set_new();
        cell_set_insert(&mut visited, *seed);
        queue.push(*seed);
        proof {
            assert(queue@ == seq![*seed]);
            assert(cell_set(visited) =~= queue@.to_set());
        }
        let mut head: usize = 0;
        while head < queue.len()
            invariant
                self.well_formed(),
                occ == self.occupied(),
                occ.finite(),
                occ.contains(*seed),
                queue@.len() >= 1,
                queue@[0] == *seed,
                queue@.no_duplicates(),
                cell_set(visited) == queue@.to_set(),
                0 <= head <= queue@.len(),
                forall|i: int| 0 <= i < queue@.len() ==> occ.contains(#[trigger] queue@[i]),
                forall|i: int| 0 <= i < queue@.len() ==> reachable(occ, *seed, #[trigger] queue@[i]),
                forall|i: int, d: CellId| 0 <= i < head && occ.contains(d) && #[trigger] touching(queue@[i], d)
                    ==> cell_set(visited).contains(d),
                forall|i: int| 1 <= i < queue@.len() ==> #[trigger] touches_earlier(queue@, i),
                forall|i: int| 1 <= i < queue@.len() ==> #[trigger] first_toucher(queue@, i) < head,
                forall|i: int, j: int| 1 <= i <= j < queue@.len()
                    ==> #[trigger] first_toucher(queue@, i) <= #[trigger] first_toucher(queue@, j),
            decreases 2 * (occ.len() - queue@.len()) + (queue@.len() - head),
        {
            proof {
                queue@.unique_seq_to_set();
                vstd::set_lib::lemma_len_subset(queue@.to_set(), occ);
            }
            let hash = queue[head];
            let ghost head0 = head as int;
            let ghost len0 = queue@.len();
            head = head + 1;
            proof {
                assert(occ.contains(queue@[head0]));
            }
            let entry = cell_entries_get(&self.map.inner, &hash).unwrap();
            proof {
                assert(occ.contains(hash));
            }
            let mut k: usize = 0;
            while k < entry.occupied_neighbors.len()
                invariant
                    self.well_formed(),
                    occ == self.occupied(),
                    occ.finite(),
                    occ.contains(*seed),
                    occ.contains(hash),
                    *entry == self.entries()[hash],
                    0 <= head0 < len0 <= queue@.len(),
                    hash == queue@[head0],
                    head0 + 1 == head,
                    queue@.len() >= 1,
                    queue@[0] == *seed,
                    queue@.no_duplicates(),
                    cell_set(visited) == queue@.to_set(),
                    0 <= head <= queue@.len(),
                    0 <= k <= entry.occupied_neighbors@.len(),
                    forall|i: int| 0 <= i < queue@.len() ==> occ.contains(#[trigger] queue@[i]),
                    forall|i: int| 0 <= i < queue@.len() ==> reachable(occ, *seed, #[trigger] queue@[i]),
                    forall|i: int, d: CellId| 0 <= i < head0 && occ.contains(d) && #[trigger] touching(queue@[i], d)
                        ==> cell_set(visited).contains(d),
                    forall|j: int| 0 <= j < k ==> cell_set(visited).contains(#[trigger] entry.occupied_neighbors@[j]),
                    forall|i: int| 1 <= i < queue@.len() ==> #[trigger] touches_earlier(queue@, i),
                    forall|i: int| 1 <= i < queue@.len() ==> #[trigger] first_toucher(queue@, i) <= head0,
                    forall|i: int, j: int| 1 <= i <= j < queue@.len()
                        ==> #[trigger] first_toucher(queue@, i) <= #[trigger] first_toucher(queue@, j),
                decreases entry.occupied_neighbors@.len() - k,
            {
                let n = entry.occupied_neighbors[k];
                proof {
                    assert(entry.occupied_neighbors@.contains(n));
                    assert(occ.contains(n) && touching(hash, n));
                }
                let ghost q0 = queue@;
                let ghost v0 = cell_set(visited);
                proof {
                    assert(reachable(occ, *seed, q0[head0]));
                }
                if cell_set_insert(&mut visited, n) {
                    queue.push(n);
                    proof {
                        assert forall|kk: int| 0 <= kk < head0 implies !touching(q0[kk], n) by {
                            if touching(q0[kk], n) {
                                assert(v0.contains(n));
                            }
                        }
                        lemma_first_touch_from(queue@, q0.len() as int, 0, head0);
                        assert forall|i: int| 1 <= i < q0.len() implies
                            first_toucher(queue@, i) == first_toucher(q0, i) by {
                            lemma_first_touch_push(q0, n, i, 0);
                        }
                        assert forall|i: int| 1 <= i < queue@.len() implies
                            #[trigger] first_toucher(queue@, i) <= head0 by {
                            if i < q0.len() {
                                assert(first_toucher(q0, i) <= head0);
                            }
                        }
                        assert forall|i: int, j: int| 1 <= i <= j < queue@.len() implies
                            #[trigger] first_toucher(queue@, i) <= #[trigger] first_toucher(queue@, j) by {
                            if j < q0.len() {
                                assert(first_toucher(q0, i) <= first_toucher(q0, j));
                            } else if i < q0.len() {
                                assert(first_toucher(q0, i) <= head0);
                            }
                        }
                        assert(queue@ == q0.push(n));
                        assert(!q0.contains(n));
                        assert(cell_set(visited) =~= queue@.to_set());
                        lemma_reachable_step(occ, *seed, hash, n);
                        assert forall|i: int| 1 <= i < queue@.len() implies #[trigger] touches_earlier(queue@, i) by {
                            if i == q0.len() {
                                assert(touching(queue@[head0], queue@[i]));
                            } else {
                                assert(touches_earlier(q0, i));
                                let j = choose|j: int| 0 <= j < i && touching(q0[j], q0[i]);
                                assert(touching(queue@[j], queue@[i]));
                            }
                        }
                    }
                }
                k += 1;
            }
            proof {
                self.lemma_well_formed();
                queue@.unique_seq_to_set();
                vstd::set_lib::lemma_len_subset(queue@.to_set(), occ);
                assert forall|i: int, d: CellId| 0 <= i < head && occ.contains(d) && #[trigger] touching(queue@[i], d)
                    implies cell_set(visited).contains(d) by {
                    if i == head0 {
                        assert(self.occupied().contains(hash));
                        assert(self.entries()[hash].occupied_neighbors@.contains(d));
                        assert(entry.occupied_neighbors@.contains(d));
                        let j = choose|j: int| 0 <= j < entry.occupied_neighbors@.len() && entry.occupied_neighbors@[j] == d;
                        assert(j < k);
                        assert(cell_set(visited).contains(entry.occupied_neighbors@[j]));
                        assert(cell_set(visited).contains(d));
                    } else {
                        assert(i < head0);
                        assert(touching(queue@[i], d));
                        assert(cell_set(visited).contains(d));
                    }
                }
            }
        }
        proof {
            assert forall|c: CellId| reachable(occ, *seed, c) implies queue@.contains(c) by {
                assert forall|x: CellId, d: CellId| cell_set(visited).contains(x) && occ.contains(d) && #[trigger] touching(x, d)
                    implies cell_set(visited).contains(d) by {
                    assert(queue@.to_set().contains(x));
                    let i = choose|i: int| 0 <= i < queue@.len() && queue@[i] == x;
                }
                assert(queue@.to_set().contains(*seed));
                lemma_closed_contains_reachable(occ, cell_set(visited), *seed, c);
            }
            assert forall|c: CellId| queue@.contains(c) implies reachable(occ, *seed, c) by {
                let i = choose|i: int| 0 <= i < queue@.len() && queue@[i] == c;
            }
        }
        queue
    }

    /// Every occupied cell connected to `seed` through touching occupied cells, visited breadth
    /// first with a flood fill, with its entry.
    ///
    /// With a `max_depth`, the traversal ends at the first cell whose Chebyshev distance from
    /// `seed` (the largest absolute wrapping offset along an axis) exceeds `max_depth`. Like a
    /// radius, the depth bounds the distance of every cell yielded; unlike a radius, it also stops
    /// the traversal before cells within the radius that are only reached after a cell beyond it.
    pub fn flood(&self, seed: &CellId, max_depth: Option<i64>) -> (r: Vec<Neighbor<'_>>)
        requires
            self.well_formed(),
        ensures
            exists|order: Seq<CellId>| {
                &&& #[trigger] self.is_flood_order(*seed, order)
                &&& r@.len() <= order.len()
                &&& forall|i: int| 0 <= i < r@.len() ==> within_depth(#[trigger] order[i], seed.cell(), max_depth)
                &&& r@.len() < order.len() ==> !within_depth(order[r@.len() as int], seed.cell(), max_depth)
                &&& forall|i: int| 0 <= i < r@.len() ==> (#[trigger] r@[i]).0 == order[i] && *r@[i].1 == self.entries()[order[i]]
            },
    {
        let order = self.flood_order(seed);
        proof {
            self.lemma_well_formed();
        }
        let start = seed.coord();
        let mut out: Vec<Neighbor<'_>> = Vec::new();
        let mut i: usize = 0;
        while i < order.len()
            invariant_except_break
                self.well_formed(),
                self.is_flood_order(*seed, order@),
                start == seed.cell(),
                0 <= i <= order@.len(),
                out@.len() == i,
                forall|k: int| 0 <= k < i ==> within_depth(#[trigger] order@[k], seed.cell(), max_depth),
                forall|k: int| 0 <= k < i ==> (#[trigger] out@[k]).0 == order@[k] && *out@[k].1 == self.entries()[order@[k]],
            ensures
                out@.len() <= order@.len(),
                forall|k: int| 0 <= k < out@.len() ==> within_depth(#[trigger] order@[k], seed.cell(), max_depth),
                out@.len() < order@.len() ==> !within_depth(order@[out@.len() as int], seed.cell(), max_depth),
                forall|k: int| 0 <= k < out@.len() ==> (#[trigger] out@[k]).0 == order@[k] && *out@[k].1 == self.entries()[order@[k]],
            decreases order@.len() - i,
        {
            let hash = order[i];
            if let Some(depth) = max_depth {
                let dist = hash.coord() - start;
                if !(within_axis(dist.x, depth) && within_axis(dist.y, depth) && within_axis(dist.z, depth)) {
                    break;
                }
            }
            proof {
                assert(order@.contains(hash));
                assert(reachable(self.occupied(), *seed, hash));
                let p = choose|p: Seq<CellId>| is_path(self.occupied(), p) && p[0] == *seed && p.last() == hash;
                assert(self.occupied().contains(p[p.len() - 1]));
            }
            let entry = cell_entries_get(&self.map.inner, &hash).unwrap();
            out.push(Neighbor(hash, entry));
            i += 1;
        }
        out
    }

    /// The entries of the occupied cells within a cube of cells with the given `center` and
    /// `radius`: the center first, then the other cells with the x offset varying fastest, then y,
    /// then z.
    ///
    /// The number of cells checked grows with the cube of the radius: a radius of 1 checks 27
    /// cells, a radius of 5 checks 1,331. Unlike `nearby`, this cannot use the neighbors cached
    /// in the entries.
    pub fn within_cube(&self, center: &CellId, radius: u8) -> (r: Vec<&GridHashEntry>)
        requires
            self.well_formed(),
        ensures
            exists|ids: Seq<CellId>| {
                &&& #[trigger] id_keys(ids)
                    == seq![id_key(*center)] + adjacent_cells(center.grid_bits(), center.cell(), radius as int)
                &&& forall|k: int| 0 <= k < ids.len() ==> (#[trigger] ids[k]).wf()
                &&& r@.map_values(|e: &GridHashEntry| *e) == present_entries(self.entries(), ids)
            },
            forall|k: int| #![trigger r@[k]] 0 <= k < r@.len() ==> exists|c: CellId| #[trigger] self.entries().contains_key(c)
                && (c == *center || in_cube(center.grid_bits(), center.cell(), radius as int, id_key(c)))
                && *r@[k] == self.entries()[c],
            forall|c: CellId| #[trigger] self.entries().contains_key(c)
                && (c == *center || in_cube(center.grid_bits(), center.cell(), radius as int, id_key(c)))
                ==> exists|k: int| 0 <= k < r@.len() && *r@[k] == self.entries()[c],
            self.entries().contains_key(*center) ==> r@.len() > 0 && *r@[0] == self.entries()[*center],
    {
        let adj = center.adjacent(radius);
        let mut ids: Vec<CellId> = Vec::new();
        ids.push(*center);
        let mut k: usize = 0;
        while k < adj.len()
            invariant
                0 <= k <= adj@.len(),
                ids@ == seq![*center] + adj@.take(k as int),
            decreases adj@.len() - k,
        {
            ids.push(adj[k]);
            proof {
                assert(adj@.take(k as int + 1) == adj@.take(k as int).push(adj@[k as int]));
            }
            k += 1;
        }
        proof {
            use_type_invariant(center);
            assert(adj@.take(adj@.len() as int) == adj@);
            assert(id_keys(ids@) == seq![id_key(*center)] + adj@.map_values(|c: CellId| id_key(c)));
        }
        let mut out: Vec<&GridHashEntry> = Vec::new();
        let mut i: usize = 0;
        while i < ids.len()
            invariant
                self.well_formed(),
                0 <= i <= ids@.len(),
                out@.map_values(|e: &GridHashEntry| *e) == present_entries(self.entries(), ids@.take(i as int)),
            decreases ids@.len() - i,
        {
            let ghost before = out@;
            proof {
                assert(ids@.take(i as int + 1).drop_last() == ids@.take(i as int));
            }
            match cell_entries_get(&self.map.inner, &ids[i]) {
                Some(e) => {
                    out.push(e);
                    proof {
                        assert(out@.map_values(|e: &GridHashEntry| *e)
                            == before.map_values(|e: &GridHashEntry| *e).push(*e));
                    }
                }
                None => {}
            }
            i += 1;
        }
        proof {
            assert(ids@.take(ids@.len() as int) == ids@);
            let m = self.entries();
            let pe = present_entries(m, ids@);
            let g = center.grid_bits();
            let cc = center.cell();
            let rr = radius as int;
            assert forall|k: int| #![trigger out@[k]] 0 <= k < out@.len() implies exists|c: CellId| #[trigger] m.contains_key(c)
                && (c == *center || in_cube(g, cc, rr, id_key(c))) && *out@[k] == m[c] by {
                assert(pe[k] == *out@[k]);
                lemma_present_entries_contains(m, ids@, pe[k]);
                let j = choose|j: int| 0 <= j < ids@.len() && #[trigger] m.contains_key(ids@[j]) && m[ids@[j]] == pe[k];
                if j > 0 {
                    assert(id_keys(ids@)[j] == id_key(ids@[j]));
                    assert(adjacent_cells(g, cc, rr)[j - 1] == id_key(ids@[j]));
                    lemma_adjacent_cube(g, cc, rr, id_key(ids@[j]));
                } else {
                    assert(ids@[0] == *center);
                }
            }
            self.lemma_well_formed();
            assert forall|c: CellId| #[trigger] m.contains_key(c) && (c == *center || in_cube(g, cc, rr, id_key(c)))
                implies exists|k: int| 0 <= k < out@.len() && *out@[k] == m[c] by {
                assert(self.occupied().contains(c));
                let j: int = if c == *center {
                    0
                } else {
                    lemma_adjacent_cube(g, cc, rr, id_key(c));
                    let a = choose|a: int| 0 <= a < adjacent_cells(g, cc, rr).len() && adjacent_cells(g, cc, rr)[a] == id_key(c);
                    assert(id_keys(ids@)[a + 1] == id_key(ids@[a + 1]));
                    lemma_cell_id_ext(ids@[a + 1], c);
                    a + 1
                };
                assert(ids@[j] == c);
                lemma_present_entries_contains(m, ids@, m[c]);
                assert(pe.contains(m[c]));
                let k = choose|k: int| 0 <= k < pe.len() && pe[k] == m[c];
                assert(*out@[k] == m[c]);
            }
            if m.contains_key(*center) {
                lemma_present_entries_first(m, ids@);
                assert(*out@[0] == pe[0]);
            }
        }
        out
    }
}

/// Whether the (wrapping) offset of cell `c` from `start` is at most `max_depth` in absolute
/// value along each axis, that is, whether the Chebyshev distance from `start` to `c` is at most
/// `max_depth`; always true without a depth limit.
pub open spec fn within_depth(c: CellId, start: CellCoord, max_depth: Option<i64>) -> bool {
    match max_depth {
        None => true,
        Some(d) => {
            let dist = cell_wrapping_sub(c.cell(), start);
            &&& -d <= dist.x <= d
            &&& -d <= dist.y <= d
            &&& -d <= dist.z <= d
        },
    }
}

/// Whether the offset `x` along one axis is at most `depth` in absolute value.
fn within_axis(x: i64, depth: i64) -> (r: bool)
    ensures
        r == (-depth <= x <= depth),
{
    if x >= 0 {
        x <= depth
    } else {
        depth >= 0 && x >= -depth
    }
}

/// An entry is among the present entries of `ids` exactly when it is the entry of one of them.
proof fn lemma_present_entries_contains(m: Map<CellId, GridHashEntry>, ids: Seq<CellId>, e: GridHashEntry)
    ensures
        present_entries(m, ids).contains(e) <==> exists|k: int| 0 <= k < ids.len()
            && #[trigger] m.contains_key(ids[k]) && m[ids[k]] == e,
    decreases ids.len(),
{
    if ids.len() > 0 {
        let prev = ids.drop_last();
        lemma_present_entries_contains(m, prev, e);
        assert forall|k: int| 0 <= k < prev.len() implies prev[k] == ids[k] by {}
        if m.contains_key(ids.last()) {
            vstd::seq_lib::lemma_seq_contains_after_push(present_entries(m, prev), m[ids.last()], e);
        }
        if exists|k: int| 0 <= k < ids.len() && #[trigger] m.contains_key(ids[k]) && m[ids[k]] == e {
            let k = choose|k: int| 0 <= k < ids.len() && #[trigger] m.contains_key(ids[k]) && m[ids[k]] == e;
            if k < prev.len() {
                assert(m.contains_key(prev[k]) && m[prev[k]] == e);
            }
        }
    }
}

/// When the first of `ids` is present, its entry comes first.
proof fn lemma_present_entries_first(m: Map<CellId, GridHashEntry>, ids: Seq<CellId>)
    requires
        ids.len() > 0,
        m.contains_key(ids[0]),
    ensures
        present_entries(m, ids).len() > 0,
        present_entries(m, ids)[0] == m[ids[0]],
    decreases ids.len(),
{
    let prev = ids.drop_last();
    let pp = present_entries(m, prev);
    if ids.len() > 1 {
        assert(prev[0] == ids[0]);
        lemma_present_entries_first(m, prev);
        if m.contains_key(ids.last()) {
            assert(present_entries(m, ids) == pp.push(m[ids.last()]));
            assert(pp.push(m[ids.last()])[0] == pp[0]);
        } else {
            assert(present_entries(m, ids) == pp);
        }
    } else {
        assert(prev.len() == 0);
        assert(pp == Seq::<GridHashEntry>::empty());
        assert(ids.last() == ids[0]);
        assert(present_entries(m, ids) == pp.push(m[ids.last()]));
    }
}

/// The `(grid, cell)` pair named by each identifier of `ids`.
pub open spec fn id_keys(ids: Seq<CellId>) -> Seq<(u64, CellCoord)> {
    ids.map_values(|c: CellId| id_key(c))
}

/// The entries of the cells of `ids` that are occupied in `m`, in the order of `ids`.
pub open spec fn present_entries(m: Map<CellId, GridHashEntry>, ids: Seq<CellId>) -> Seq<GridHashEntry>
    decreases ids.len(),
{
    if ids.len() == 0 {
        Seq::empty()
    } else {
        let prev = present_entries(m, ids.drop_last());
        if m.contains_key(ids.last()) {
            prev.push(m[ids.last()])
        } else {
            prev
        }
    }
}

} // verus!
