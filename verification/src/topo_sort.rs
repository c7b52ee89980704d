//! Topological sorting of a dependency graph, by repeatedly emitting an
//! identifier whose dependencies have all been emitted.

use vstd::prelude::*;
use crate::dep_graph::{add_edge, clone_ids, DepGraph};
use crate::graph::{
    dependent_entries, depends_on, deps_of, has_cycle, has_no_edges, has_no_empty_entry, is_closed_order,
    is_free, is_topological_order, lemma_dependent_entries, lemma_graph_by_edges,
    lemma_no_edges_is_sortable, lemma_reversed, lemma_verdict, nodes, reversed, unresolved_ids,
    Graph,
};
use crate::ident::Identifier;

verus! {

/// The graph has a cyclic reference: some identifiers can never be placed.
#[derive(Debug)]
pub struct CycleError<T> {
    /// The identifiers that could not be placed, each listed once.
    pub unresolved: Vec<T>,
}

/// The working state of the sorter.
pub struct TopoSort<T: Identifier> {
    /// For each identifier that still waits, the dependencies it waits for.
    depends_on: DepGraph<T>,
    /// For each identifier that is depended on, those that depend on it.
    dependents: DepGraph<T>,
    /// The identifiers that wait for nothing and have not been emitted yet.
    no_deps: Vec<T>,
}

/// What resolving `dependency` for `dependent` makes of the waiting entries
/// and of the ready list: the dependency leaves the entry of `dependent`, and
/// when that entry becomes empty, `dependent` moves to the end of the ready list.
pub open spec fn after_resolve<N>(pending: Graph<N>, ready: Seq<N>, dependent: N, dependency: N) -> (
    Graph<N>,
    Seq<N>,
) {
    if !pending.dom().contains(dependent) {
        (pending, ready)
    } else {
        let rest = pending[dependent].remove(dependency);
        if rest.is_empty() {
            (pending.remove(dependent), ready.push(dependent))
        } else {
            (pending.insert(dependent, rest), ready)
        }
    }
}

impl<T: Identifier> Default for TopoSort<T> {
    /// A state in which nothing waits and nothing is ready.
    fn default() -> (topo: Self)
        ensures
            topo.pending() == Map::<T::V, Set<T::V>>::empty(),
            topo.dependents() == Map::<T::V, Set<T::V>>::empty(),
            topo.ready() == Seq::<T::V>::empty(),
    {
        let no_deps: Vec<T> = Vec::new();
        assert(no_deps.deep_view() =~= Seq::empty());
        TopoSort { depends_on: DepGraph::new(), dependents: DepGraph::new(), no_deps }
    }
}

impl<T: Identifier> From<&DepGraph<T>> for TopoSort<T> {
    /// The sorter's start on `deps`: every entry with dependencies waits, the
    /// edges are recorded in reverse, and every identifier without
    /// dependencies is ready, whether it has an entry of its own or only
    /// occurs as a dependency.
    fn from(deps: &DepGraph<T>) -> (topo: TopoSort<T>)
        ensures
            topo.pending() == dependent_entries(deps@),
            topo.dependents() == reversed(deps@),
            forall|n: T::V| topo.ready().contains(n) <==> nodes(deps@).contains(n) && is_free(deps@, n),
    {
        let ghost g = deps@;
        let mut waiting = DepGraph::<T>::new();
        let mut dependents = DepGraph::<T>::new();
        let mut no_deps: Vec<T> = Vec::new();
        let keys = deps.keys();
        let ghost names = keys.deep_view();
        proof {
            lemma_nothing_recorded(g, names);
            assert(no_deps.deep_view() =~= Seq::empty());
        }
        let mut i: usize = 0;
        while i < keys.len()
            invariant
                g == deps@,
                names == keys.deep_view(),
                i <= keys.len(),
                names.no_duplicates(),
                names.to_set() == g.dom(),
                records(waiting@, g, names, i as int, Seq::empty(), 0),
                records_reversed(dependents@, g, names, i as int, Seq::empty(), 0),
                lists_free(no_deps.deep_view(), g, names, i as int),
            decreases keys.len() - i,
        {
            let ghost ready0 = no_deps.deep_view();
            assert(names.to_set().contains(names[i as int]));
            match deps.get(&keys[i]) {
                Some(dependencies) => {
                    let ghost ds = dependencies.deep_view();
                    proof {
                        lemma_entry_start(waiting@, dependents@, g, names, i as int, ds);
                    }
                    if dependencies.len() == 0 {
                        no_deps.push(keys[i].duplicate());
                        proof {
                            assert(no_deps.deep_view() =~= ready0.push(names[i as int]));
                            lemma_list_free(ready0, g, names, i as int, ds);
                        }
                    } else {
                        let mut j: usize = 0;
                        while j < dependencies.len()
                            invariant
                                j <= dependencies.len(),
                                i < keys.len(),
                                names == keys.deep_view(),
                                ds == dependencies.deep_view(),
                                records(waiting@, g, names, i as int, ds, j as int),
                                records_reversed(dependents@, g, names, i as int, ds, j as int),
                            decreases dependencies.len() - j,
                        {
                            proof {
                                lemma_record_edge(waiting@, g, names, i as int, ds, j as int);
                                lemma_record_edge_reversed(
                                    dependents@,
                                    g,
                                    names,
                                    i as int,
                                    ds,
                                    j as int,
                                );
                            }
                            add_edge(&mut waiting, keys[i].duplicate(), dependencies[j].duplicate());
                            add_edge(&mut dependents, dependencies[j].duplicate(), keys[i].duplicate());
                            j += 1;
                        }
                        proof {
                            lemma_skip_bound(ready0, g, names, i as int, ds);
                        }
                    }
                    proof {
                        lemma_entry_done(waiting@, dependents@, g, names, i as int, ds);
                    }
                },
                None => {},
            }
            i += 1;
        }
        let leaves = dependents.keys();
        proof {
            lemma_all_recorded(waiting@, g, names);
            lemma_all_recorded_reversed(dependents@, g, names);
            lemma_ready_start(no_deps.deep_view(), g, names, leaves.deep_view());
        }
        let mut k: usize = 0;
        while k < leaves.len()
            invariant
                g == deps@,
                k <= leaves.len(),
                leaves.deep_view().no_duplicates(),
                lists_ready(no_deps.deep_view(), g, leaves.deep_view(), k as int),
            decreases leaves.len() - k,
        {
            let ghost ready0 = no_deps.deep_view();
            if !deps.contains_key(&leaves[k]) {
                no_deps.push(leaves[k].duplicate());
                assert(no_deps.deep_view() =~= ready0.push(leaves.deep_view()[k as int]));
            }
            proof {
                lemma_ready_step(ready0, g, leaves.deep_view(), k as int);
            }
            k += 1;
        }
        proof {
            lemma_dependent_entries(g);
            lemma_ready_end(no_deps.deep_view(), g, leaves.deep_view());
            let ready = no_deps.deep_view();
            assert forall|x: int| 0 <= x < ready.len() implies !waiting@.dom().contains(
                #[trigger] ready[x],
            ) by {
                assert(ready.contains(ready[x]));
            }
        }
        TopoSort { depends_on: waiting, dependents, no_deps }
    }
}

impl<T: Identifier> vstd::std_specs::convert::FromSpecImpl<&DepGraph<T>> for TopoSort<T> {
    /// The start state is fixed by what it holds, not as a value.
    open spec fn obeys_from_spec() -> bool {
        false
    }

    open spec fn from_spec(deps: &DepGraph<T>) -> TopoSort<T> {
        arbitrary()
    }
}

impl<T: Identifier> TopoSort<T> {
    /// The waiting entries: each identifier that still has unresolved
    /// dependencies, with those dependencies.
    pub closed spec fn pending(&self) -> Graph<T::V> {
        self.depends_on@
    }

    /// Who depends on whom: each identifier that is depended on, with its dependents.
    pub closed spec fn dependents(&self) -> Graph<T::V> {
        self.dependents@
    }

    /// The ready list; the sorter takes from its end.
    pub closed spec fn ready(&self) -> Seq<T::V> {
        self.no_deps.deep_view()
    }

    /// Only identifiers with an unresolved dependency wait; no identifier is
    /// ready twice, and none is ready while it waits.
    #[verifier::type_invariant]
    pub open spec fn wf(&self) -> bool {
        &&& has_no_empty_entry(self.pending())
        &&& self.ready().no_duplicates()
        &&& forall|i: int|
            0 <= i < self.ready().len() ==> !self.pending().dom().contains(#[trigger] self.ready()[i])
    }

    /// Finitely many identifiers wait.
    pub proof fn lemma_pending_finite(&self)
        ensures
            self.pending().dom().finite(),
    {
        self.depends_on.lemma_finite();
    }

    /// The identifiers that depend on `dependency`, each listed once.
    pub fn get_dependents(&self, dependency: &T) -> (r: Option<&Vec<T>>)
        ensures
            match r {
                Some(list) => self.dependents().dom().contains(dependency.deep_view())
                    && list.deep_view().no_duplicates() && list.deep_view().to_set()
                    == self.dependents()[dependency.deep_view()],
                None => !self.dependents().dom().contains(dependency.deep_view()),
            },
    {
        self.dependents.get(dependency)
    }

    /// Whether nothing waits any more.
    pub fn is_resolved(&self) -> (r: bool)
        ensures
            r == self.pending().dom().is_empty(),
    {
        self.depends_on.is_empty()
    }

    /// Marks `dependency` as emitted for `dependent`.
    pub fn resolve(&mut self, dependent: &T, dependency: &T)
        ensures
            final(self).dependents() == old(self).dependents(),
            (final(self).pending(), final(self).ready()) == after_resolve(
                old(self).pending(),
                old(self).ready(),
                dependent.deep_view(),
                dependency.deep_view(),
            ),
    {
        proof {
            use_type_invariant(&*self);
        }
        let ghost pending = self.pending();
        let ghost ready = self.ready();
        if self.depends_on.contains_key(dependent) {
            let ghost rest = pending[dependent.deep_view()].remove(dependency.deep_view());
            let mut waiting = DepGraph::<T>::new();
            let mut no_deps: Vec<T> = Vec::new();
            std::mem::swap(&mut no_deps, &mut self.no_deps);
            std::mem::swap(&mut waiting, &mut self.depends_on);
            waiting.remove_dependency(dependent, dependency);
            let emptied = match waiting.get(dependent) {
                Some(left) => {
                    proof {
                        if left.len() > 0 {
                            assert(left.deep_view().contains(left.deep_view()[0]));
                            assert(rest.contains(left.deep_view()[0]));
                        } else {
                            assert(rest =~= Set::empty());
                        }
                    }
                    left.len() == 0
                },
                None => false,
            };
            if emptied {
                no_deps.push(dependent.duplicate());
                waiting.remove(dependent);
                assert(no_deps.deep_view() =~= ready.push(dependent.deep_view()));
                assert(waiting@ =~= pending.remove(dependent.deep_view()));
                assert forall|a: T::V| waiting@.dom().contains(a) implies exists|b: T::V|
                    depends_on(waiting@, a, b) by {
                    let b = choose|b: T::V| depends_on(pending, a, b);
                    assert(depends_on(waiting@, a, b));
                }
            } else {
                assert forall|a: T::V| waiting@.dom().contains(a) implies exists|b: T::V|
                    depends_on(waiting@, a, b) by {
                    if a == dependent.deep_view() {
                        let b = choose|b: T::V| rest.contains(b);
                        assert(depends_on(waiting@, a, b));
                    } else {
                        let b = choose|b: T::V| depends_on(pending, a, b);
                        assert(depends_on(waiting@, a, b));
                    }
                }
            }
            self.depends_on = waiting;
            self.no_deps = no_deps;
        }
    }

    /// The identifiers that still wait, each listed once.
    pub fn unresolved(&self) -> (r: Vec<T>)
        ensures
            r.deep_view().no_duplicates(),
            r.deep_view().to_set() == self.pending().dom(),
    {
        self.depends_on.keys()
    }

    /// Takes the last identifier off the ready list.
    fn take_ready(&mut self) -> (r: Option<T>)
        ensures
            final(self).pending() == old(self).pending(),
            final(self).dependents() == old(self).dependents(),
            match r {
                Some(id) => old(self).ready().len() > 0 && id.deep_view() == old(self).ready().last()
                    && final(self).ready() == old(self).ready().drop_last(),
                None => old(self).ready().len() == 0 && final(self).ready() == old(self).ready(),
            },
    {
        proof {
            use_type_invariant(&*self);
        }
        let ghost ready = self.ready();
        let mut no_deps: Vec<T> = Vec::new();
        std::mem::swap(&mut no_deps, &mut self.no_deps);
        let r = no_deps.pop();
        assert(r.is_some() ==> no_deps.deep_view() =~= ready.drop_last());
        assert(r.is_none() ==> no_deps.deep_view() =~= ready);
        self.no_deps = no_deps;
        r
    }
}

/// Sorts the identifiers of `deps` so that each comes after all of its
/// dependencies.
///
/// Succeeds exactly when the graph has no cycle. Otherwise the error lists,
/// each once, the identifiers that lead to a cycle.
pub fn topo_sort<T: Identifier>(deps: &DepGraph<T>) -> (r: Result<Vec<T>, CycleError<T>>)
    ensures
        match r {
            Ok(order) => !has_cycle(deps@) && is_topological_order(deps@, order.deep_view()),
            Err(e) => has_cycle(deps@) && e.unresolved.deep_view().no_duplicates()
                && e.unresolved.deep_view().to_set() == unresolved_ids(deps@),
        },
        has_no_edges(deps@) ==> (r matches Ok(order) && order.deep_view().no_duplicates()
            && order.deep_view().to_set() == deps@.dom()),
{
    let ghost g = deps@;
    let mut state = TopoSort::from(deps);
    let mut sorted: Vec<T> = Vec::new();
    proof {
        use_type_invariant(&state);
        state.lemma_pending_finite();
        assert(sorted.deep_view() =~= Seq::empty());
        lemma_sorting_starts(g, state.ready());
    }
    loop
        invariant
            state.dependents() == reversed(g),
            sorting(g, state.pending(), state.ready(), sorted.deep_view(), Set::empty()),
        ensures
            state.ready().len() == 0,
            sorting(g, state.pending(), state.ready(), sorted.deep_view(), Set::empty()),
        decreases state.pending().dom().len() + state.ready().len(),
    {
        let ghost ready0 = state.ready();
        let ghost done0 = sorted.deep_view();
        let node = match state.take_ready() {
            Some(node) => node,
            None => {
                break;
            },
        };
        sorted.push(node.duplicate());
        proof {
            assert(sorted.deep_view() =~= done0.push(ready0.last()));
            lemma_sorting_emits(g, state.pending(), ready0, done0);
        }
        let dependents = match state.get_dependents(&node) {
            Some(list) => clone_ids(list),
            None => Vec::new(),
        };
        let ghost list = dependents.deep_view();
        let ghost total = state.pending().dom().len() + state.ready().len();
        proof {
            assert(list.skip(0) =~= list);
            assert(list.to_set() =~= Set::new(|a: T::V| depends_on(g, a, node.deep_view()))) by {
                if !reversed(g).dom().contains(node.deep_view()) {
                    assert(list =~= Seq::empty());
                }
            }
        }
        let mut j: usize = 0;
        while j < dependents.len()
            invariant
                state.dependents() == reversed(g),
                list == dependents.deep_view(),
                list.no_duplicates(),
                j <= dependents.len(),
                sorted.deep_view().len() > 0,
                sorted.deep_view().last() == node.deep_view(),
                sorting(
                    g,
                    state.pending(),
                    state.ready(),
                    sorted.deep_view(),
                    list.skip(j as int).to_set(),
                ),
                state.pending().dom().len() + state.ready().len() == total,
            decreases dependents.len() - j,
        {
            proof {
                lemma_sorting_resolves(
                    g,
                    state.pending(),
                    state.ready(),
                    sorted.deep_view(),
                    list.skip(j as int).to_set(),
                    list[j as int],
                );
                lemma_skip_to_set_step(list, j as int);
            }
            state.resolve(&dependents[j], &node);
            j += 1;
        }
        proof {
            assert(list.skip(list.len() as int).to_set() =~= Set::empty());
        }
    }
    proof {
        assert(state.ready() =~= Seq::empty());
        lemma_sorting_ends(g, state.pending(), sorted.deep_view());
        if has_no_edges(g) {
            lemma_no_edges_is_sortable(g);
        }
    }
    if state.is_resolved() {
        Ok(sorted)
    } else {
        Err(CycleError { unresolved: state.unresolved() })
    }
}

/// `n` has been emitted, is ready, or waits.
spec fn placed<N>(pending: Graph<N>, ready: Seq<N>, done: Seq<N>, n: N) -> bool {
    done.contains(n) || ready.contains(n) || pending.dom().contains(n)
}

/// `a` depends on `b`, and `b` has not been taken off the entry of `a` yet:
/// `b` is not emitted, or it is the last one emitted and `a` is still owed
/// its removal.
spec fn still_waits<N>(g: Graph<N>, done: Seq<N>, owed: Set<N>, a: N, b: N) -> bool {
    depends_on(g, a, b) && (!done.contains(b) || (owed.contains(a) && done.len() > 0 && b
        == done.last()))
}

/// The sorter's invariant: `done` is what has been emitted, in order; `ready`
/// and `pending` share the other identifiers of `g` between them.
#[verifier::opaque]
spec fn sorting<N>(g: Graph<N>, pending: Graph<N>, ready: Seq<N>, done: Seq<N>, owed: Set<N>) -> bool {
    &&& has_no_empty_entry(pending)
    &&& pending.dom().finite()
    &&& done.no_duplicates()
    &&& ready.no_duplicates()
    &&& forall|i: int, j: int| 0 <= i < done.len() && 0 <= j < ready.len() ==> done[i] != ready[j]
    &&& forall|n: N|
        #![trigger nodes(g).contains(n)]
        #![trigger placed(pending, ready, done, n)]
        nodes(g).contains(n) <==> placed(pending, ready, done, n)
    &&& forall|n: N| #[trigger] pending.dom().contains(n) ==> !done.contains(n) && !ready.contains(n)
    &&& forall|a: N, b: N|
        #![trigger depends_on(pending, a, b)]
        #![trigger still_waits(g, done, owed, a, b)]
        depends_on(pending, a, b) <==> pending.dom().contains(a) && still_waits(g, done, owed, a, b)
    &&& forall|i: int, b: N|
        0 <= i < ready.len() && #[trigger] depends_on(g, ready[i], b) ==> done.contains(b)
    &&& is_closed_order(g, done)
}

proof fn lemma_sorting_starts<N>(g: Graph<N>, ready: Seq<N>)
    requires
        ready.no_duplicates(),
        forall|n: N| ready.contains(n) <==> nodes(g).contains(n) && is_free(g, n),
        dependent_entries(g).dom().finite(),
    ensures
        sorting(g, dependent_entries(g), ready, Seq::empty(), Set::empty()),
{
    reveal(sorting);
    let pending = dependent_entries(g);
    let done = Seq::<N>::empty();
    lemma_dependent_entries(g);
    assert forall|n: N|
        #![trigger nodes(g).contains(n)]
        #![trigger placed(pending, ready, done, n)]
        nodes(g).contains(n) <==> placed(pending, ready, done, n) by {
        if nodes(g).contains(n) && !is_free(g, n) {
            let b = choose|b: N| depends_on(g, n, b);
        }
    }
    assert forall|i: int, b: N| 0 <= i < ready.len() && #[trigger] depends_on(
        g,
        ready[i],
        b,
    ) implies done.contains(b) by {
        assert(ready.contains(ready[i]));
    }
}

proof fn lemma_sorting_emits<N>(g: Graph<N>, pending: Graph<N>, ready: Seq<N>, done: Seq<N>)
    requires
        sorting(g, pending, ready, done, Set::empty()),
        ready.len() > 0,
    ensures
        sorting(
            g,
            pending,
            ready.drop_last(),
            done.push(ready.last()),
            Set::new(|a: N| depends_on(g, a, ready.last())),
        ),
{
    reveal(sorting);
    let node = ready.last();
    let ready2 = ready.drop_last();
    let done2 = done.push(node);
    let owed2 = Set::new(|a: N| depends_on(g, a, node));
    let last = ready.len() - 1;
    assert(ready.contains(node)) by {
        assert(ready[last] == node);
    }
    assert(!done.contains(node)) by {
        if done.contains(node) {
            let i = choose|i: int| 0 <= i < done.len() && done[i] == node;
            assert(done[i] != ready[last]);
        }
    }
    assert(!ready2.contains(node)) by {
        if ready2.contains(node) {
            let i = choose|i: int| 0 <= i < ready2.len() && ready2[i] == node;
            assert(ready[i] == ready[last]);
        }
    }
    lemma_push_no_duplicates(done, node);
    assert forall|n: N| done2.contains(n) <==> done.contains(n) || n == node by {
        lemma_push_contains(done, node, n);
    }
    assert forall|n: N| ready.contains(n) <==> ready2.contains(n) || n == node by {
        lemma_push_contains(ready2, node, n);
        assert(ready2.push(node) =~= ready);
    }
    assert forall|i: int, j: int| 0 <= i < done2.len() && 0 <= j < ready2.len() implies done2[i]
        != ready2[j] by {
        assert(ready2[j] == ready[j]);
        if i < done.len() {
            assert(done2[i] == done[i]);
        }
    }
    assert forall|n: N|
        #![trigger nodes(g).contains(n)]
        #![trigger placed(pending, ready2, done2, n)]
        nodes(g).contains(n) <==> placed(pending, ready2, done2, n) by {
        assert(nodes(g).contains(n) <==> placed(pending, ready, done, n));
    }
    assert forall|a: N, b: N|
        #![trigger depends_on(pending, a, b)]
        #![trigger still_waits(g, done2, owed2, a, b)]
        depends_on(pending, a, b) <==> pending.dom().contains(a) && still_waits(
            g,
            done2,
            owed2,
            a,
            b,
        ) by {
        assert(depends_on(pending, a, b) <==> pending.dom().contains(a) && still_waits(
            g,
            done,
            Set::empty(),
            a,
            b,
        ));
    }
    assert forall|i: int, b: N| 0 <= i < ready2.len() && #[trigger] depends_on(
        g,
        ready2[i],
        b,
    ) implies done2.contains(b) by {
        assert(depends_on(g, ready[i], b));
    }
    assert forall|i: int, b: N| 0 <= i < done2.len() && #[trigger] depends_on(
        g,
        done2[i],
        b,
    ) implies done2.take(i).contains(b) by {
        if i < done.len() {
            assert(depends_on(g, done[i], b));
            assert(done2.take(i) =~= done.take(i));
        } else {
            assert(depends_on(g, ready[last], b));
            assert(done2.take(i) =~= done);
        }
    }
}

proof fn lemma_sorting_resolves<N>(
    g: Graph<N>,
    pending: Graph<N>,
    ready: Seq<N>,
    done: Seq<N>,
    owed: Set<N>,
    a: N,
)
    requires
        sorting(g, pending, ready, done, owed),
        done.len() > 0,
    ensures
        ({
            let (pending2, ready2) = after_resolve(pending, ready, a, done.last());
            &&& sorting(g, pending2, ready2, done, owed.remove(a))
            &&& pending2.dom().len() + ready2.len() == pending.dom().len() + ready.len()
        }),
{
    reveal(sorting);
    let node = done.last();
    let (pending2, ready2) = after_resolve(pending, ready, a, node);
    let owed2 = owed.remove(a);
    assert(done.contains(node)) by {
        assert(done[done.len() - 1] == node);
    }
    if !pending.dom().contains(a) {
        assert forall|x: N, b: N|
            #![trigger depends_on(pending2, x, b)]
            #![trigger still_waits(g, done, owed2, x, b)]
            depends_on(pending2, x, b) <==> pending2.dom().contains(x) && still_waits(
                g,
                done,
                owed2,
                x,
                b,
            ) by {
            assert(depends_on(pending, x, b) <==> pending.dom().contains(x) && still_waits(
                g,
                done,
                owed,
                x,
                b,
            ));
        }
    } else {
        let rest = pending[a].remove(node);
        assert forall|b: N| rest.contains(b) <==> depends_on(g, a, b) && !done.contains(b) by {
            assert(depends_on(pending, a, b) <==> pending.dom().contains(a) && still_waits(
                g,
                done,
                owed,
                a,
                b,
            ));
        }
        if rest.is_empty() {
            assert(pending2 == pending.remove(a));
            assert(ready2 == ready.push(a));
            assert(pending2.dom() =~= pending.dom().remove(a));
            lemma_push_no_duplicates(ready, a);
            assert forall|n: N| ready2.contains(n) <==> ready.contains(n) || n == a by {
                lemma_push_contains(ready, a, n);
            }
            assert forall|x: N| pending2.dom().contains(x) implies exists|b: N|
                depends_on(pending2, x, b) by {
                let b = choose|b: N| depends_on(pending, x, b);
                assert(depends_on(pending2, x, b));
            }
            assert forall|i: int, j: int| 0 <= i < done.len() && 0 <= j < ready2.len() implies done[i]
                != ready2[j] by {
                if j == ready.len() {
                    assert(done.contains(done[i]));
                }
            }
            assert forall|n: N|
                #![trigger nodes(g).contains(n)]
                #![trigger placed(pending2, ready2, done, n)]
                nodes(g).contains(n) <==> placed(pending2, ready2, done, n) by {
                assert(nodes(g).contains(n) <==> placed(pending, ready, done, n));
            }
            assert forall|x: N, b: N|
                #![trigger depends_on(pending2, x, b)]
                #![trigger still_waits(g, done, owed2, x, b)]
                depends_on(pending2, x, b) <==> pending2.dom().contains(x) && still_waits(
                    g,
                    done,
                    owed2,
                    x,
                    b,
                ) by {
                assert(depends_on(pending, x, b) <==> pending.dom().contains(x) && still_waits(
                    g,
                    done,
                    owed,
                    x,
                    b,
                ));
            }
            assert forall|i: int, b: N| 0 <= i < ready2.len() && #[trigger] depends_on(
                g,
                ready2[i],
                b,
            ) implies done.contains(b) by {
                if i < ready.len() {
                    assert(depends_on(g, ready[i], b));
                } else {
                    assert(!rest.contains(b));
                }
            }
        } else {
            assert(pending2 == pending.insert(a, rest));
            assert(pending2.dom() =~= pending.dom());
            assert forall|x: N| pending2.dom().contains(x) implies exists|b: N|
                depends_on(pending2, x, b) by {
                if x == a {
                    let b = choose|b: N| rest.contains(b);
                    assert(depends_on(pending2, x, b));
                } else {
                    let b = choose|b: N| depends_on(pending, x, b);
                    assert(depends_on(pending2, x, b));
                }
            }
            assert forall|n: N|
                #![trigger nodes(g).contains(n)]
                #![trigger placed(pending2, ready2, done, n)]
                nodes(g).contains(n) <==> placed(pending2, ready2, done, n) by {
                assert(nodes(g).contains(n) <==> placed(pending, ready, done, n));
            }
            assert forall|x: N, b: N|
                #![trigger depends_on(pending2, x, b)]
                #![trigger still_waits(g, done, owed2, x, b)]
                depends_on(pending2, x, b) <==> pending2.dom().contains(x) && still_waits(
                    g,
                    done,
                    owed2,
                    x,
                    b,
                ) by {
                assert(depends_on(pending, x, b) <==> pending.dom().contains(x) && still_waits(
                    g,
                    done,
                    owed,
                    x,
                    b,
                ));
            }
        }
    }
}

proof fn lemma_sorting_ends<N>(g: Graph<N>, pending: Graph<N>, done: Seq<N>)
    requires
        sorting(g, pending, Seq::empty(), done, Set::empty()),
    ensures
        done.no_duplicates(),
        pending.dom() == unresolved_ids(g),
        pending.dom().is_empty() ==> is_topological_order(g, done) && !has_cycle(g),
        !pending.dom().is_empty() ==> has_cycle(g),
{
    reveal(sorting);
    let rest = pending.dom();
    let ready = Seq::<N>::empty();
    assert forall|a: N| #[trigger] rest.contains(a) implies exists|b: N|
        rest.contains(b) && depends_on(g, a, b) by {
        let b = choose|b: N| depends_on(pending, a, b);
        assert(still_waits(g, done, Set::empty(), a, b));
        assert(nodes(g).contains(b));
        assert(placed(pending, ready, done, b));
    }
    assert forall|n: N| nodes(g).contains(n) <==> done.contains(n) || rest.contains(n) by {
        assert(nodes(g).contains(n) <==> placed(pending, ready, done, n));
    }
    lemma_verdict(g, done, rest);
}

proof fn lemma_skip_to_set_step<N>(s: Seq<N>, j: int)
    requires
        s.no_duplicates(),
        0 <= j < s.len(),
    ensures
        s.skip(j + 1).to_set() == s.skip(j).to_set().remove(s[j]),
{
    let short = s.skip(j + 1);
    let long = s.skip(j);
    assert forall|x: N| short.to_set().contains(x) <==> long.to_set().remove(s[j]).contains(x) by {
        if short.contains(x) {
            let i = choose|i: int| 0 <= i < short.len() && short[i] == x;
            assert(long[i + 1] == x);
            assert(s[j + 1 + i] == x);
        }
        if long.contains(x) && x != s[j] {
            let i = choose|i: int| 0 <= i < long.len() && long[i] == x;
            assert(short[i - 1] == x);
        }
    }
    assert(short.to_set() =~= long.to_set().remove(s[j]));
}

/// Whether `from` depends on `to` in the part of `g` that has been read:
/// the first `i` entries in the order of `names`, and the first `j` of the
/// dependencies `ds` of entry `i`.
spec fn recorded<N>(g: Graph<N>, names: Seq<N>, i: int, ds: Seq<N>, j: int, from: N, to: N) -> bool {
    ||| names.take(i).contains(from) && depends_on(g, from, to)
    ||| 0 <= i < names.len() && from == names[i] && ds.take(j).contains(to)
}

/// `m` has exactly the edges read so far, and no empty entry.
#[verifier::opaque]
spec fn records<N>(m: Graph<N>, g: Graph<N>, names: Seq<N>, i: int, ds: Seq<N>, j: int) -> bool {
    &&& has_no_empty_entry(m)
    &&& forall|a: N, b: N|
        #![trigger depends_on(m, a, b)]
        #![trigger recorded(g, names, i, ds, j, a, b)]
        depends_on(m, a, b) <==> recorded(g, names, i, ds, j, a, b)
}

/// `m` has exactly the edges read so far, each turned round, and no empty entry.
#[verifier::opaque]
spec fn records_reversed<N>(m: Graph<N>, g: Graph<N>, names: Seq<N>, i: int, ds: Seq<N>, j: int) -> bool {
    &&& has_no_empty_entry(m)
    &&& forall|a: N, b: N|
        #![trigger depends_on(m, b, a)]
        #![trigger recorded(g, names, i, ds, j, a, b)]
        depends_on(m, b, a) <==> recorded(g, names, i, ds, j, a, b)
}

/// `ready` lists, each once, those of the first `i` keys that have no dependency.
#[verifier::opaque]
spec fn lists_free<N>(ready: Seq<N>, g: Graph<N>, names: Seq<N>, i: int) -> bool {
    &&& ready.no_duplicates()
    &&& forall|n: N| #[trigger]
        ready.contains(n) <==> names.take(i).contains(n) && is_free(g, n)
}

/// `ready` lists, each once, the keys without dependency and those of the
/// first `k` of `leaves` that are no key.
#[verifier::opaque]
spec fn lists_ready<N>(ready: Seq<N>, g: Graph<N>, leaves: Seq<N>, k: int) -> bool {
    &&& ready.no_duplicates()
    &&& forall|n: N| #[trigger]
        ready.contains(n) <==> (g.dom().contains(n) && is_free(g, n)) || (leaves.take(k).contains(
            n,
        ) && !g.dom().contains(n))
}

proof fn lemma_nothing_recorded<N>(g: Graph<N>, names: Seq<N>)
    ensures
        records(Map::empty(), g, names, 0, Seq::empty(), 0),
        records_reversed(Map::empty(), g, names, 0, Seq::empty(), 0),
        lists_free(Seq::empty(), g, names, 0),
{
    reveal(records);
    reveal(records_reversed);
    reveal(lists_free);
}

proof fn lemma_entry_start<N>(m: Graph<N>, mr: Graph<N>, g: Graph<N>, names: Seq<N>, i: int, ds: Seq<N>)
    requires
        records(m, g, names, i, Seq::empty(), 0),
        records_reversed(mr, g, names, i, Seq::empty(), 0),
    ensures
        records(m, g, names, i, ds, 0),
        records_reversed(mr, g, names, i, ds, 0),
{
    reveal(records);
    reveal(records_reversed);
    assert forall|a: N, b: N|
        recorded(g, names, i, ds, 0, a, b) <==> recorded(g, names, i, Seq::empty(), 0, a, b) by {}
}

proof fn lemma_record_edge<N>(m: Graph<N>, g: Graph<N>, names: Seq<N>, i: int, ds: Seq<N>, j: int)
    requires
        records(m, g, names, i, ds, j),
        0 <= i < names.len(),
        0 <= j < ds.len(),
    ensures
        records(m.insert(names[i], deps_of(m, names[i]).insert(ds[j])), g, names, i, ds, j + 1),
{
    reveal(records);
    let m2 = m.insert(names[i], deps_of(m, names[i]).insert(ds[j]));
    assert forall|a: N, b: N|
        #![trigger depends_on(m2, a, b)]
        #![trigger recorded(g, names, i, ds, j + 1, a, b)]
        depends_on(m2, a, b) <==> recorded(g, names, i, ds, j + 1, a, b) by {
        lemma_take_contains_step(ds, j, b);
        assert(depends_on(m, a, b) <==> recorded(g, names, i, ds, j, a, b));
    }
    assert forall|a: N| m2.dom().contains(a) implies exists|b: N| depends_on(m2, a, b) by {
        if a == names[i] {
            assert(depends_on(m2, a, ds[j]));
        } else {
            let b = choose|b: N| depends_on(m, a, b);
            assert(depends_on(m2, a, b));
        }
    }
}

proof fn lemma_record_edge_reversed<N>(
    m: Graph<N>,
    g: Graph<N>,
    names: Seq<N>,
    i: int,
    ds: Seq<N>,
    j: int,
)
    requires
        records_reversed(m, g, names, i, ds, j),
        0 <= i < names.len(),
        0 <= j < ds.len(),
    ensures
        records_reversed(
            m.insert(ds[j], deps_of(m, ds[j]).insert(names[i])),
            g,
            names,
            i,
            ds,
            j + 1,
        ),
{
    reveal(records_reversed);
    let m2 = m.insert(ds[j], deps_of(m, ds[j]).insert(names[i]));
    assert forall|a: N, b: N|
        #![trigger depends_on(m2, b, a)]
        #![trigger recorded(g, names, i, ds, j + 1, a, b)]
        depends_on(m2, b, a) <==> recorded(g, names, i, ds, j + 1, a, b) by {
        lemma_take_contains_step(ds, j, b);
        assert(depends_on(m, b, a) <==> recorded(g, names, i, ds, j, a, b));
    }
    assert forall|b: N| m2.dom().contains(b) implies exists|a: N| depends_on(m2, b, a) by {
        if b == ds[j] {
            assert(depends_on(m2, b, names[i]));
        } else {
            let a = choose|a: N| depends_on(m, b, a);
            assert(depends_on(m2, b, a));
        }
    }
}

proof fn lemma_entry_done<N>(m: Graph<N>, mr: Graph<N>, g: Graph<N>, names: Seq<N>, i: int, ds: Seq<N>)
    requires
        records(m, g, names, i, ds, ds.len() as int),
        records_reversed(mr, g, names, i, ds, ds.len() as int),
        0 <= i < names.len(),
        g.dom().contains(names[i]),
        ds.to_set() == g[names[i]],
    ensures
        records(m, g, names, i + 1, Seq::empty(), 0),
        records_reversed(mr, g, names, i + 1, Seq::empty(), 0),
{
    reveal(records);
    reveal(records_reversed);
    assert(ds.take(ds.len() as int) =~= ds);
    assert forall|a: N, b: N|
        recorded(g, names, i, ds, ds.len() as int, a, b) <==> recorded(
            g,
            names,
            i + 1,
            Seq::empty(),
            0,
            a,
            b,
        ) by {
        lemma_take_contains_step(names, i, a);
        assert(ds.to_set().contains(b) <==> ds.contains(b));
    }
}

proof fn lemma_all_recorded<N>(m: Graph<N>, g: Graph<N>, names: Seq<N>)
    requires
        records(m, g, names, names.len() as int, Seq::empty(), 0),
        names.to_set() == g.dom(),
    ensures
        m == dependent_entries(g),
{
    reveal(records);
    assert(names.take(names.len() as int) =~= names);
    lemma_dependent_entries(g);
    assert forall|a: N, b: N| depends_on(m, a, b) <==> depends_on(dependent_entries(g), a, b) by {
        assert(names.to_set().contains(a) <==> names.contains(a));
        assert(depends_on(m, a, b) <==> recorded(g, names, names.len() as int, Seq::empty(), 0, a, b));
    }
    lemma_graph_by_edges(m, dependent_entries(g));
}

proof fn lemma_all_recorded_reversed<N>(m: Graph<N>, g: Graph<N>, names: Seq<N>)
    requires
        records_reversed(m, g, names, names.len() as int, Seq::empty(), 0),
        names.to_set() == g.dom(),
    ensures
        m == reversed(g),
{
    reveal(records_reversed);
    assert(names.take(names.len() as int) =~= names);
    lemma_reversed(g);
    assert forall|b: N, a: N| depends_on(m, b, a) <==> depends_on(reversed(g), b, a) by {
        assert(names.to_set().contains(a) <==> names.contains(a));
        assert(depends_on(m, b, a) <==> recorded(g, names, names.len() as int, Seq::empty(), 0, a, b));
    }
    lemma_graph_by_edges(m, reversed(g));
}

proof fn lemma_list_free<N>(ready: Seq<N>, g: Graph<N>, names: Seq<N>, i: int, ds: Seq<N>)
    requires
        lists_free(ready, g, names, i),
        0 <= i < names.len(),
        names.no_duplicates(),
        g.dom().contains(names[i]),
        ds.to_set() == g[names[i]],
        ds.len() == 0,
    ensures
        lists_free(ready.push(names[i]), g, names, i + 1),
{
    reveal(lists_free);
    let id = names[i];
    assert forall|b: N| !depends_on(g, id, b) by {
        assert(ds.to_set().contains(b) <==> ds.contains(b));
    }
    assert(!names.take(i).contains(id));
    assert forall|n: N| #[trigger]
        ready.push(id).contains(n) <==> names.take(i + 1).contains(n) && is_free(g, n) by {
        lemma_push_contains(ready, id, n);
        lemma_take_contains_step(names, i, n);
    }
    lemma_push_no_duplicates(ready, id);
}

proof fn lemma_skip_bound<N>(ready: Seq<N>, g: Graph<N>, names: Seq<N>, i: int, ds: Seq<N>)
    requires
        lists_free(ready, g, names, i),
        0 <= i < names.len(),
        g.dom().contains(names[i]),
        ds.to_set() == g[names[i]],
        ds.len() > 0,
    ensures
        lists_free(ready, g, names, i + 1),
{
    reveal(lists_free);
    assert(ds.contains(ds[0]));
    assert(ds.to_set().contains(ds[0]));
    assert(depends_on(g, names[i], ds[0]));
    assert forall|n: N| #[trigger]
        ready.contains(n) <==> names.take(i + 1).contains(n) && is_free(g, n) by {
        lemma_take_contains_step(names, i, n);
    }
}

proof fn lemma_ready_start<N>(ready: Seq<N>, g: Graph<N>, names: Seq<N>, leaves: Seq<N>)
    requires
        lists_free(ready, g, names, names.len() as int),
        names.to_set() == g.dom(),
    ensures
        lists_ready(ready, g, leaves, 0),
{
    reveal(lists_free);
    reveal(lists_ready);
    assert(names.take(names.len() as int) =~= names);
    assert forall|n: N| #[trigger]
        ready.contains(n) <==> (g.dom().contains(n) && is_free(g, n)) || (leaves.take(0).contains(
            n,
        ) && !g.dom().contains(n)) by {
        assert(names.to_set().contains(n) <==> names.contains(n));
    }
}

proof fn lemma_ready_step<N>(ready: Seq<N>, g: Graph<N>, leaves: Seq<N>, k: int)
    requires
        lists_ready(ready, g, leaves, k),
        0 <= k < leaves.len(),
        leaves.no_duplicates(),
    ensures
        g.dom().contains(leaves[k]) ==> lists_ready(ready, g, leaves, k + 1),
        !g.dom().contains(leaves[k]) ==> lists_ready(ready.push(leaves[k]), g, leaves, k + 1),
{
    reveal(lists_ready);
    let id = leaves[k];
    assert(!leaves.take(k).contains(id));
    if g.dom().contains(id) {
        assert forall|n: N| #[trigger]
            ready.contains(n) <==> (g.dom().contains(n) && is_free(g, n)) || (leaves.take(
                k + 1,
            ).contains(n) && !g.dom().contains(n)) by {
            lemma_take_contains_step(leaves, k, n);
        }
    } else {
        assert forall|n: N| #[trigger]
            ready.push(id).contains(n) <==> (g.dom().contains(n) && is_free(g, n)) || (leaves.take(
                k + 1,
            ).contains(n) && !g.dom().contains(n)) by {
            lemma_take_contains_step(leaves, k, n);
            lemma_push_contains(ready, id, n);
        }
        lemma_push_no_duplicates(ready, id);
    }
}

proof fn lemma_ready_end<N>(ready: Seq<N>, g: Graph<N>, leaves: Seq<N>)
    requires
        lists_ready(ready, g, leaves, leaves.len() as int),
        leaves.to_set() == reversed(g).dom(),
    ensures
        ready.no_duplicates(),
        forall|n: N| ready.contains(n) <==> nodes(g).contains(n) && is_free(g, n),
{
    reveal(lists_ready);
    assert(leaves.take(leaves.len() as int) =~= leaves);
    assert forall|n: N| ready.contains(n) <==> nodes(g).contains(n) && is_free(g, n) by {
        assert(leaves.to_set().contains(n) <==> leaves.contains(n));
        if nodes(g).contains(n) && !g.dom().contains(n) {
            let a = choose|a: N| depends_on(g, a, n);
            assert(reversed(g).dom().contains(n));
        }
        if leaves.contains(n) {
            let a = choose|a: N| depends_on(g, a, n);
        }
    }
}

proof fn lemma_push_no_duplicates<N>(s: Seq<N>, e: N)
    requires
        s.no_duplicates(),
        !s.contains(e),
    ensures
        s.push(e).no_duplicates(),
{
    let long = s.push(e);
    assert forall|i: int, j: int| 0 <= i < long.len() && 0 <= j < long.len() && i != j implies long[i]
        != long[j] by {
        if i < s.len() {
            assert(s.contains(s[i]));
        }
        if j < s.len() {
            assert(s.contains(s[j]));
        }
    }
}

proof fn lemma_take_contains_step<N>(s: Seq<N>, i: int, x: N)
    requires
        0 <= i < s.len(),
    ensures
        s.take(i + 1).contains(x) <==> s.take(i).contains(x) || x == s[i],
{
    let short = s.take(i);
    let long = s.take(i + 1);
    if long.contains(x) {
        let j = choose|j: int| 0 <= j < long.len() && long[j] == x;
        if j < i {
            assert(short[j] == x);
        }
    }
    if short.contains(x) {
        let j = choose|j: int| 0 <= j < short.len() && short[j] == x;
        assert(long[j] == x);
    }
    if x == s[i] {
        assert(long[i] == x);
    }
}

proof fn lemma_push_contains<N>(s: Seq<N>, e: N, x: N)
    ensures
        s.push(e).contains(x) <==> s.contains(x) || x == e,
{
    let long = s.push(e);
    if long.contains(x) {
        let j = choose|j: int| 0 <= j < long.len() && long[j] == x;
        if j < s.len() {
            assert(s[j] == x);
        }
    }
    if s.contains(x) {
        let j = choose|j: int| 0 <= j < s.len() && s[j] == x;
        assert(long[j] == x);
    }
    if x == e {
        assert(long[s.len() as int] == x);
    }
}

} // verus!
