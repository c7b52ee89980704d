//! An executable dependency graph: a map from identifiers to identifier sets,
//! kept as an association list.

use vstd::prelude::*;
use crate::graph::{deps_of, Graph};
use crate::ident::Identifier;

verus! {

/// Whether the names in `ids` and the sets in `sets` are exactly the entries of `m`.
pub open spec fn entries_match<N>(ids: Seq<N>, sets: Seq<Seq<N>>, m: Graph<N>) -> bool {
    &&& ids.len() == sets.len()
    &&& forall|i: int|
        0 <= i < ids.len() ==> m.dom().contains(#[trigger] ids[i]) && m[ids[i]] == sets[i].to_set()
    &&& forall|k: N| m.dom().contains(k) ==> ids.contains(k)
}

/// The index of the first element of `list` named like `id`, if there is one.
pub fn position<T: Identifier>(list: &Vec<T>, id: &T) -> (r: Option<usize>)
    ensures
        match r {
            Some(i) => i < list.len() && list.deep_view()[i as int] == id.deep_view() && forall|j: int|
                0 <= j < i ==> list.deep_view()[j] != id.deep_view(),
            None => !list.deep_view().contains(id.deep_view()),
        },
{
    let mut i: usize = 0;
    while i < list.len()
        invariant
            i <= list.len(),
            forall|j: int| 0 <= j < i ==> list.deep_view()[j] != id.deep_view(),
        decreases list.len() - i,
    {
        if list[i].same(id) {
            return Some(i);
        }
        i += 1;
    }
    None
}

/// A copy of `list`, name for name.
pub fn clone_ids<T: Identifier>(list: &Vec<T>) -> (r: Vec<T>)
    ensures
        r.deep_view() == list.deep_view(),
{
    let mut r: Vec<T> = Vec::new();
    let mut i: usize = 0;
    while i < list.len()
        invariant
            i <= list.len(),
            r.deep_view() == list.deep_view().take(i as int),
        decreases list.len() - i,
    {
        let ghost before = r.deep_view();
        r.push(list[i].duplicate());
        assert(r.deep_view() =~= before.push(list.deep_view()[i as int]));
        assert(list.deep_view().take(i + 1) =~= list.deep_view().take(i as int).push(
            list.deep_view()[i as int],
        ));
        i += 1;
    }
    assert(list.deep_view().take(list.len() as int) =~= list.deep_view());
    r
}

/// The names of `list`, each kept once.
pub fn unique_ids<T: Identifier>(list: Vec<T>) -> (r: Vec<T>)
    ensures
        r.deep_view().no_duplicates(),
        r.deep_view().to_set() == list.deep_view().to_set(),
{
    let mut r: Vec<T> = Vec::new();
    let mut i: usize = 0;
    while i < list.len()
        invariant
            i <= list.len(),
            r.deep_view().no_duplicates(),
            r.deep_view().to_set() == list.deep_view().take(i as int).to_set(),
        decreases list.len() - i,
    {
        let ghost before = r.deep_view();
        let ghost seen = list.deep_view().take(i as int);
        let ghost name = list.deep_view()[i as int];
        assert(list.deep_view().take(i + 1) =~= seen.push(name));
        proof {
            seen.lemma_push_to_set_commute(name);
        }
        if position(&r, &list[i]).is_none() {
            r.push(list[i].duplicate());
            assert(r.deep_view() =~= before.push(name));
            proof {
                before.lemma_push_to_set_commute(name);
            }
        } else {
            assert(before.to_set().contains(name));
            assert(before.to_set().insert(name) =~= before.to_set());
        }
        i += 1;
    }
    assert(list.deep_view().take(list.len() as int) =~= list.deep_view());
    r
}

/// The entries of a graph: `sets[i]` is the dependency set of `ids[i]`.
struct Entries<T> {
    ids: Vec<T>,
    sets: Vec<Vec<T>>,
}

/// A dependency graph: a finite map from identifiers to the sets of
/// identifiers they depend on.
pub struct DepGraph<T: Identifier> {
    entries: Entries<T>,
}

impl<T: Identifier> View for DepGraph<T> {
    type V = Map<T::V, Set<T::V>>;

    closed spec fn view(&self) -> Map<T::V, Set<T::V>> {
        Map::new(
            |k: T::V| self.entries.ids.deep_view().contains(k),
            |k: T::V|
                self.entries.sets.deep_view()[self.entries.ids.deep_view().index_of(k)].to_set(),
        )
    }
}

impl<T: Identifier> DepGraph<T> {
    /// Keys are pairwise distinct, and so are the members of each set.
    #[verifier::type_invariant]
    spec fn wf(self) -> bool {
        &&& self.entries.ids.len() == self.entries.sets.len()
        &&& self.entries.ids.deep_view().no_duplicates()
        &&& forall|i: int|
            0 <= i < self.entries.sets.len() ==> (
            #[trigger] self.entries.sets.deep_view()[i]).no_duplicates()
    }

    proof fn lemma_entries(&self)
        requires
            self.wf(),
        ensures
            entries_match(self.entries.ids.deep_view(), self.entries.sets.deep_view(), self@),
    {
        let ids = self.entries.ids.deep_view();
        assert forall|i: int| 0 <= i < ids.len() implies self@.dom().contains(#[trigger] ids[i])
            && self@[ids[i]] == self.entries.sets.deep_view()[i].to_set() by {
            assert(ids.contains(ids[i]));
            assert(ids.index_of(ids[i]) == i);
        }
    }

    proof fn lemma_view_is(&self, m: Graph<T::V>)
        requires
            entries_match(self.entries.ids.deep_view(), self.entries.sets.deep_view(), m),
        ensures
            self@ == m,
    {
        let ids = self.entries.ids.deep_view();
        assert forall|k: T::V| self@.dom().contains(k) implies m.dom().contains(k) && self@[k]
            == m[k] by {
            let j = ids.index_of(k);
            assert(ids[j] == k);
        }
        assert(self@ =~= m);
    }

    /// A graph has finitely many entries.
    pub proof fn lemma_finite(&self)
        ensures
            self@.dom().finite(),
    {
        vstd::seq_lib::seq_to_set_is_finite(self.entries.ids.deep_view());
        assert(self@.dom() =~= self.entries.ids.deep_view().to_set());
    }

    /// A graph without entries.
    pub fn new() -> (g: Self)
        ensures
            g@ == Map::<T::V, Set<T::V>>::empty(),
    {
        let g = DepGraph { entries: Entries { ids: Vec::new(), sets: Vec::new() } };
        proof {
            g.lemma_view_is(Map::empty());
        }
        g
    }

    /// The number of entries.
    pub fn len(&self) -> (n: usize)
        ensures
            n == self@.dom().len(),
    {
        proof {
            use_type_invariant(self);
            self.entries.ids.deep_view().unique_seq_to_set();
            assert(self@.dom() =~= self.entries.ids.deep_view().to_set());
        }
        self.entries.ids.len()
    }

    /// Whether the graph has no entry.
    pub fn is_empty(&self) -> (r: bool)
        ensures
            r == self@.dom().is_empty(),
    {
        proof {
            let ids = self.entries.ids.deep_view();
            if ids.len() > 0 {
                assert(ids.contains(ids[0]));
                assert(self@.dom().contains(ids[0]));
            } else {
                assert(self@.dom() =~= Set::empty());
            }
        }
        self.entries.ids.len() == 0
    }

    /// Whether `id` has an entry.
    pub fn contains_key(&self, id: &T) -> (r: bool)
        ensures
            r == self@.dom().contains(id.deep_view()),
    {
        position(&self.entries.ids, id).is_some()
    }

    /// The dependency set of `id`, each member listed once.
    pub fn get(&self, id: &T) -> (r: Option<&Vec<T>>)
        ensures
            match r {
                Some(set) => self@.dom().contains(id.deep_view()) && set.deep_view().no_duplicates()
                    && set.deep_view().to_set() == self@[id.deep_view()],
                None => !self@.dom().contains(id.deep_view()),
            },
    {
        proof {
            use_type_invariant(self);
            self.lemma_entries();
        }
        match position(&self.entries.ids, id) {
            Some(i) => {
                assert(self.entries.sets.deep_view()[i as int]
                    == self.entries.sets[i as int].deep_view());
                Some(&self.entries.sets[i])
            },
            None => None,
        }
    }

    /// The keys, each listed once.
    pub fn keys(&self) -> (r: Vec<T>)
        ensures
            r.deep_view().no_duplicates(),
            r.deep_view().to_set() == self@.dom(),
    {
        proof {
            use_type_invariant(self);
        }
        let r = clone_ids(&self.entries.ids);
        assert(self@.dom() =~= self.entries.ids.deep_view().to_set());
        r
    }

    /// Sets the dependencies of `id` to the members of `deps`, replacing any
    /// earlier entry for `id`.
    pub fn insert(&mut self, id: T, deps: Vec<T>)
        ensures
            final(self)@ == old(self)@.insert(id.deep_view(), deps.deep_view().to_set()),
    {
        proof {
            use_type_invariant(&*self);
            self.lemma_entries();
        }
        let ghost target = self@.insert(id.deep_view(), deps.deep_view().to_set());
        let ghost ids0 = self.entries.ids.deep_view();
        let ghost sets0 = self.entries.sets.deep_view();
        let mut entries = Entries { ids: Vec::new(), sets: Vec::new() };
        std::mem::swap(&mut entries, &mut self.entries);
        let set = unique_ids(deps);
        let ghost at: int;
        match position(&entries.ids, &id) {
            Some(i) => {
                entries.sets[i] = set;
                assert(entries.sets.deep_view() =~= sets0.update(i as int, set.deep_view()));
                proof {
                    at = i as int;
                }
            },
            None => {
                entries.ids.push(id);
                entries.sets.push(set);
                assert(entries.ids.deep_view() =~= ids0.push(id.deep_view()));
                assert(entries.sets.deep_view() =~= sets0.push(set.deep_view()));
                proof {
                    at = ids0.len() as int;
                }
            },
        }
        proof {
            let ids = entries.ids.deep_view();
            assert forall|k: T::V| target.dom().contains(k) implies ids.contains(k) by {
                if k == id.deep_view() {
                    assert(ids[at] == k);
                } else {
                    let j = choose|j: int| 0 <= j < ids0.len() && ids0[j] == k;
                    assert(ids[j] == k);
                }
            }
        }
        self.entries = entries;
        proof {
            self.lemma_view_is(target);
        }
    }

    /// Removes the entry of `id`, if there is one.
    pub fn remove(&mut self, id: &T)
        ensures
            final(self)@ == old(self)@.remove(id.deep_view()),
    {
        proof {
            use_type_invariant(&*self);
            self.lemma_entries();
        }
        let ghost before = self@;
        let ghost target = before.remove(id.deep_view());
        let ghost ids0 = self.entries.ids.deep_view();
        let ghost sets0 = self.entries.sets.deep_view();
        let mut entries = Entries { ids: Vec::new(), sets: Vec::new() };
        std::mem::swap(&mut entries, &mut self.entries);
        match position(&entries.ids, id) {
            Some(i) => {
                entries.ids.remove(i);
                entries.sets.remove(i);
                assert(entries.ids.deep_view() =~= ids0.remove(i as int));
                assert(entries.sets.deep_view() =~= sets0.remove(i as int));
                proof {
                    let ids = entries.ids.deep_view();
                    assert forall|k: T::V| target.dom().contains(k) implies ids.contains(k) by {
                        let j = choose|j: int| 0 <= j < ids0.len() && ids0[j] == k;
                        if j < i {
                            assert(ids[j] == k);
                        } else {
                            assert(ids[j - 1] == k);
                        }
                    }
                }
            },
            None => {
                assert(target =~= before);
            },
        }
        self.entries = entries;
        proof {
            self.lemma_view_is(target);
        }
    }

    /// Takes `dependency` out of the dependency set of `id`. The entry of `id`
    /// stays, even when its set becomes empty.
    pub fn remove_dependency(&mut self, id: &T, dependency: &T)
        ensures
            final(self)@ == if old(self)@.dom().contains(id.deep_view()) {
                old(self)@.insert(id.deep_view(), old(self)@[id.deep_view()].remove(dependency.deep_view()))
            } else {
                old(self)@
            },
    {
        proof {
            use_type_invariant(&*self);
            self.lemma_entries();
        }
        let ghost ids0 = self.entries.ids.deep_view();
        let ghost sets0 = self.entries.sets.deep_view();
        let ghost before = self@;
        let ghost target = if before.dom().contains(id.deep_view()) {
            before.insert(id.deep_view(), before[id.deep_view()].remove(dependency.deep_view()))
        } else {
            before
        };
        let mut entries = Entries { ids: Vec::new(), sets: Vec::new() };
        std::mem::swap(&mut entries, &mut self.entries);
        match position(&entries.ids, id) {
            Some(i) => {
                let ghost set0 = sets0[i as int];
                match position(&entries.sets[i], dependency) {
                    Some(j) => {
                        entries.sets[i].remove(j);
                        let ghost set1 = set0.remove(j as int);
                        assert(entries.sets.deep_view() =~= sets0.update(i as int, set1)) by {
                            assert(entries.sets[i as int].deep_view() =~= set1);
                        }
                        assert(set1.to_set() =~= set0.to_set().remove(dependency.deep_view())) by {
                            assert forall|x: T::V| set0.to_set().remove(dependency.deep_view()).contains(
                                x,
                            ) implies set1.contains(x) by {
                                let y = choose|y: int| 0 <= y < set0.len() && set0[y] == x;
                                if y < j {
                                    assert(set1[y] == x);
                                } else {
                                    assert(set1[y - 1] == x);
                                }
                            }
                        }
                    },
                    None => {
                        assert(set0.to_set().remove(dependency.deep_view()) =~= set0.to_set());
                        assert(entries.sets.deep_view() =~= sets0);
                    },
                }
                proof {
                    let ids = entries.ids.deep_view();
                    assert forall|k: T::V| target.dom().contains(k) implies ids.contains(k) by {
                        if k == id.deep_view() {
                            assert(ids[i as int] == k);
                        }
                    }
                }
            },
            None => {},
        }
        self.entries = entries;
        proof {
            self.lemma_view_is(target);
        }
    }
}

/// Records that `from` depends on `to`, adding an entry for `from` if it has none.
pub fn add_edge<T: Identifier>(graph: &mut DepGraph<T>, from: T, to: T)
    ensures
        final(graph)@ == old(graph)@.insert(from.deep_view(), deps_of(old(graph)@, from.deep_view()).insert(to.deep_view())),
{
    proof {
        use_type_invariant(&*graph);
        graph.lemma_entries();
    }
    let ghost before = graph@;
    let ghost target = before.insert(from.deep_view(), deps_of(before, from.deep_view()).insert(to.deep_view()));
    let ghost ids0 = graph.entries.ids.deep_view();
    let ghost sets0 = graph.entries.sets.deep_view();
    let mut entries = Entries { ids: Vec::new(), sets: Vec::new() };
    std::mem::swap(&mut entries, &mut graph.entries);
    match position(&entries.ids, &from) {
        Some(i) => {
            let ghost set0 = sets0[i as int];
            if position(&entries.sets[i], &to).is_none() {
                entries.sets[i].push(to);
                assert(entries.sets.deep_view() =~= sets0.update(i as int, set0.push(to.deep_view()))) by {
                    assert(entries.sets[i as int].deep_view() =~= set0.push(to.deep_view()));
                }
                proof {
                    set0.lemma_push_to_set_commute(to.deep_view());
                }
            } else {
                assert(set0.to_set().insert(to.deep_view()) =~= set0.to_set());
                assert(entries.sets.deep_view() =~= sets0);
            }
            proof {
                let ids = entries.ids.deep_view();
                assert forall|k: T::V| target.dom().contains(k) implies ids.contains(k) by {
                    if k == from.deep_view() {
                        assert(ids[i as int] == k);
                    }
                }
            }
        },
        None => {
            let mut set: Vec<T> = Vec::new();
            set.push(to);
            entries.ids.push(from);
            entries.sets.push(set);
            assert(set.deep_view() =~= Seq::<T::V>::empty().push(to.deep_view()));
            assert(entries.ids.deep_view() =~= ids0.push(from.deep_view()));
            assert(entries.sets.deep_view() =~= sets0.push(set.deep_view()));
            proof {
                Seq::<T::V>::empty().lemma_push_to_set_commute(to.deep_view());
                assert(Seq::<T::V>::empty().to_set() =~= Set::<T::V>::empty());
                let ids = entries.ids.deep_view();
                assert forall|k: T::V| target.dom().contains(k) implies ids.contains(k) by {
                    if k == from.deep_view() {
                        assert(ids[ids0.len() as int] == k);
                    } else {
                        let j = choose|j: int| 0 <= j < ids0.len() && ids0[j] == k;
                        assert(ids[j] == k);
                    }
                }
            }
        },
    }
    graph.entries = entries;
    proof {
        graph.lemma_view_is(target);
    }
}

} // verus!
