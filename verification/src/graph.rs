//! Dependency graphs as mathematical objects, and what it means to sort one.
//!
//! An identifier is modelled by its name, of any type `N`; a graph by a map
//! from each name to the set of names it depends on.

use vstd::prelude::*;

verus! {

/// A dependency graph: every key maps to the set of identifiers it depends on.
pub type Graph<N> = Map<N, Set<N>>;

/// `a` has an entry in `g` and that entry names `b` as a dependency.
pub open spec fn depends_on<N>(g: Graph<N>, a: N, b: N) -> bool {
    g.dom().contains(a) && g[a].contains(b)
}

/// The dependencies of `a`; an identifier without an entry has none.
pub open spec fn deps_of<N>(g: Graph<N>, a: N) -> Set<N> {
    if g.dom().contains(a) {
        g[a]
    } else {
        Set::empty()
    }
}

/// `a` has no dependency in `g`.
pub open spec fn is_free<N>(g: Graph<N>, a: N) -> bool {
    forall|b: N| !depends_on(g, a, b)
}

/// Every identifier that occurs in `g`, as a key or as a dependency.
pub open spec fn nodes<N>(g: Graph<N>) -> Set<N> {
    Set::new(|n: N| g.dom().contains(n) || exists|a: N| depends_on(g, a, n))
}

/// No entry of `g` names any dependency.
pub open spec fn has_no_edges<N>(g: Graph<N>) -> bool {
    forall|a: N, b: N| !depends_on(g, a, b)
}

/// No entry of `g` has an empty dependency set.
pub open spec fn has_no_empty_entry<N>(g: Graph<N>) -> bool {
    forall|a: N| g.dom().contains(a) ==> exists|b: N| depends_on(g, a, b)
}

/// The entries of `g` whose dependency set is not empty.
pub open spec fn dependent_entries<N>(g: Graph<N>) -> Graph<N> {
    Map::new(|a: N| g.dom().contains(a) && !is_free(g, a), |a: N| g[a])
}

/// `g` with every edge turned round: each dependency maps to the set of
/// identifiers that depend on it.
pub open spec fn reversed<N>(g: Graph<N>) -> Graph<N> {
    Map::new(
        |b: N| exists|a: N| depends_on(g, a, b),
        |b: N| Set::new(|a: N| depends_on(g, a, b)),
    )
}

/// `order` lists every identifier of `g` exactly once, and each identifier
/// comes after all of its dependencies.
pub open spec fn is_topological_order<N>(g: Graph<N>, order: Seq<N>) -> bool {
    &&& order.no_duplicates()
    &&& forall|n: N| order.contains(n) <==> nodes(g).contains(n)
    &&& forall|i: int, j: int|
        0 <= i < order.len() && 0 <= j < order.len() && depends_on(g, order[i], order[j]) ==> j < i
}

/// Each element of `w` depends on the next one.
pub open spec fn is_walk<N>(g: Graph<N>, w: Seq<N>) -> bool {
    &&& w.len() >= 1
    &&& forall|i: int| 0 <= i < w.len() - 1 ==> depends_on(g, #[trigger] w[i], w[i + 1])
}

/// A walk of at least one step that ends where it began.
pub open spec fn is_cycle<N>(g: Graph<N>, w: Seq<N>) -> bool {
    &&& is_walk(g, w)
    &&& w.len() >= 2
    &&& w[0] == w.last()
}

/// Some identifiers of `g` depend on each other in a circle.
pub open spec fn has_cycle<N>(g: Graph<N>) -> bool {
    exists|w: Seq<N>| is_cycle(g, w)
}

/// A walk that ends on an identifier it has already visited at position `k`.
pub open spec fn is_lasso<N>(g: Graph<N>, w: Seq<N>, k: int) -> bool {
    &&& is_walk(g, w)
    &&& 0 <= k < w.len() - 1
    &&& w[k] == w.last()
}

/// Following dependencies from `a` can lead into a cycle: `a` is on a cycle,
/// or depends, directly or through others, on an identifier that is.
pub open spec fn leads_to_cycle<N>(g: Graph<N>, a: N) -> bool {
    exists|w: Seq<N>, k: int| is_lasso(g, w, k) && w[0] == a
}

/// The identifiers that no order can place: those that lead to a cycle.
pub open spec fn unresolved_ids<N>(g: Graph<N>) -> Set<N> {
    Set::new(|a: N| leads_to_cycle(g, a))
}

/// Every element of `done` comes after all of its dependencies, and each of
/// those is listed.
pub open spec fn is_closed_order<N>(g: Graph<N>, done: Seq<N>) -> bool {
    forall|i: int, b: N|
        0 <= i < done.len() && #[trigger] depends_on(g, done[i], b) ==> done.take(i).contains(b)
}

/// Every member of `stuck` depends on a member of `stuck`.
pub open spec fn is_stuck<N>(g: Graph<N>, stuck: Set<N>) -> bool {
    forall|a: N| #[trigger]
        stuck.contains(a) ==> exists|b: N| stuck.contains(b) && depends_on(g, a, b)
}

/// Two graphs without empty entries that have the same edges are the same graph.
pub proof fn lemma_graph_by_edges<N>(m1: Graph<N>, m2: Graph<N>)
    requires
        has_no_empty_entry(m1),
        has_no_empty_entry(m2),
        forall|a: N, b: N| depends_on(m1, a, b) <==> depends_on(m2, a, b),
    ensures
        m1 == m2,
{
    assert forall|a: N| m1.dom().contains(a) implies m2.dom().contains(a) && m1[a] =~= m2[a] by {
        let b = choose|b: N| depends_on(m1, a, b);
        assert(depends_on(m2, a, b));
        assert forall|x: N| m1[a].contains(x) <==> m2[a].contains(x) by {
            assert(depends_on(m1, a, x) <==> depends_on(m2, a, x));
        }
    }
    assert forall|a: N| m2.dom().contains(a) implies m1.dom().contains(a) by {
        let b = choose|b: N| depends_on(m2, a, b);
        assert(depends_on(m1, a, b));
    }
    assert(m1 =~= m2);
}

/// The entries with dependencies keep every edge, and none of them is empty.
pub proof fn lemma_dependent_entries<N>(g: Graph<N>)
    ensures
        has_no_empty_entry(dependent_entries(g)),
        forall|a: N, b: N| depends_on(dependent_entries(g), a, b) <==> depends_on(g, a, b),
{
    assert forall|a: N, b: N| depends_on(g, a, b) implies depends_on(
        dependent_entries(g),
        a,
        b,
    ) by {
        assert(!is_free(g, a));
    }
}

/// The reversed graph has each edge the other way round, and no empty entry.
pub proof fn lemma_reversed<N>(g: Graph<N>)
    ensures
        has_no_empty_entry(reversed(g)),
        forall|a: N, b: N| depends_on(reversed(g), b, a) <==> depends_on(g, a, b),
{
    assert forall|b: N| reversed(g).dom().contains(b) implies exists|a: N|
        depends_on(reversed(g), b, a) by {
        let a = choose|a: N| depends_on(g, a, b);
        assert(depends_on(reversed(g), b, a));
    }
}

/// Along a walk that starts inside a closed order, positions in that order
/// strictly go down.
proof fn lemma_walk_descends<N>(g: Graph<N>, done: Seq<N>, w: Seq<N>, s: int, t: int, ps: int) -> (pt:
    int)
    requires
        is_closed_order(g, done),
        is_walk(g, w),
        0 <= s <= t < w.len(),
        0 <= ps < done.len(),
        done[ps] == w[s],
    ensures
        0 <= pt <= ps - (t - s),
        done[pt] == w[t],
    decreases t - s,
{
    if s == t {
        ps
    } else {
        let pm = lemma_walk_descends(g, done, w, s, t - 1, ps);
        assert(depends_on(g, w[t - 1], w[t - 1 + 1]));
        assert(depends_on(g, done[pm], w[t]));
        let prefix = done.take(pm);
        assert(prefix.contains(w[t]));
        let q = choose|q: int| 0 <= q < prefix.len() && prefix[q] == w[t];
        q
    }
}

/// No identifier of a closed order without repetitions leads to a cycle.
pub proof fn lemma_closed_order_is_safe<N>(g: Graph<N>, done: Seq<N>, a: N)
    requires
        is_closed_order(g, done),
        done.no_duplicates(),
        done.contains(a),
    ensures
        !leads_to_cycle(g, a),
{
    if leads_to_cycle(g, a) {
        let (w, k) = choose|w: Seq<N>, k: int| is_lasso(g, w, k) && w[0] == a;
        let p0 = choose|p: int| 0 <= p < done.len() && done[p] == a;
        let pk = lemma_walk_descends(g, done, w, 0, k, p0);
        let pl = lemma_walk_descends(g, done, w, k, w.len() - 1, pk);
        assert(done[pl] == done[pk]);
        assert(pl < pk);
    }
}

/// The walk of `n` steps that starts at `a` and always moves on to a chosen
/// dependency inside `stuck`.
spec fn stuck_walk<N>(g: Graph<N>, stuck: Set<N>, a: N, n: nat) -> Seq<N>
    decreases n,
{
    if n == 0 {
        seq![a]
    } else {
        let w = stuck_walk(g, stuck, a, (n - 1) as nat);
        w.push(choose|b: N| stuck.contains(b) && depends_on(g, w.last(), b))
    }
}

proof fn lemma_stuck_walk<N>(g: Graph<N>, stuck: Set<N>, a: N, n: nat)
    requires
        is_stuck(g, stuck),
        stuck.contains(a),
    ensures
        stuck_walk(g, stuck, a, n).len() == n + 1,
        stuck_walk(g, stuck, a, n)[0] == a,
        is_walk(g, stuck_walk(g, stuck, a, n)),
        forall|i: int| 0 <= i <= n ==> stuck.contains(#[trigger] stuck_walk(g, stuck, a, n)[i]),
    decreases n,
{
    if n > 0 {
        lemma_stuck_walk(g, stuck, a, (n - 1) as nat);
        let w = stuck_walk(g, stuck, a, (n - 1) as nat);
        assert(stuck.contains(w[n - 1]));
        let b = choose|b: N| stuck.contains(b) && depends_on(g, w.last(), b);
        let v = stuck_walk(g, stuck, a, n);
        assert(v == w.push(b));
        assert forall|i: int| 0 <= i < v.len() - 1 implies depends_on(g, #[trigger] v[i], v[i + 1]) by {
            if i < n - 1 {
                assert(depends_on(g, w[i], w[i + 1]));
            }
        }
    }
}

/// In a finite set whose members each depend on another member, every
/// member leads to a cycle.
pub proof fn lemma_stuck_leads_to_cycle<N>(g: Graph<N>, stuck: Set<N>, a: N)
    requires
        is_stuck(g, stuck),
        stuck.finite(),
        stuck.contains(a),
    ensures
        leads_to_cycle(g, a),
{
    let n = stuck.len();
    let w = stuck_walk(g, stuck, a, n);
    lemma_stuck_walk(g, stuck, a, n);
    if w.no_duplicates() {
        w.unique_seq_to_set();
        assert(w.to_set().subset_of(stuck)) by {
            assert forall|x: N| w.to_set().contains(x) implies stuck.contains(x) by {
                let i = choose|i: int| 0 <= i < w.len() && w[i] == x;
                assert(stuck.contains(w[i]));
            }
        }
        vstd::set_lib::lemma_len_subset(w.to_set(), stuck);
        assert(false);
    }
    let (i, j) = choose|i: int, j: int|
        0 <= i < w.len() && 0 <= j < w.len() && i != j && w[i] == w[j];
    let (lo, hi) = if i < j {
        (i, j)
    } else {
        (j, i)
    };
    let v = w.take(hi + 1);
    assert forall|x: int| 0 <= x < v.len() - 1 implies depends_on(g, #[trigger] v[x], v[x + 1]) by {
        assert(depends_on(g, w[x], w[x + 1]));
    }
    assert(is_lasso(g, v, lo));
    assert(v[0] == a);
}

/// The part of a lasso from its meeting point on is a cycle.
pub proof fn lemma_lasso_has_cycle<N>(g: Graph<N>, w: Seq<N>, k: int)
    requires
        is_lasso(g, w, k),
    ensures
        has_cycle(g),
{
    let c = w.subrange(k, w.len() as int);
    assert forall|i: int| 0 <= i < c.len() - 1 implies depends_on(g, #[trigger] c[i], c[i + 1]) by {
        assert(depends_on(g, w[k + i], w[k + i + 1]));
    }
    assert(is_cycle(g, c));
}

/// Every identifier on a cycle is unresolved.
pub proof fn lemma_cycle_members_are_unresolved<N>(g: Graph<N>, w: Seq<N>, i: int)
    requires
        is_cycle(g, w),
        0 <= i < w.len(),
    ensures
        unresolved_ids(g).contains(w[i]),
{
    let last = w.len() - 1;
    if i == 0 || i == last {
        assert(is_lasso(g, w, 0));
        assert(leads_to_cycle(g, w[i]));
    } else {
        let v = w.subrange(i, w.len() as int) + w.subrange(1, i + 1);
        assert forall|x: int| 0 <= x < v.len() - 1 implies depends_on(g, #[trigger] v[x], v[x + 1]) by {
            if x < last - i {
                assert(depends_on(g, w[i + x], w[i + x + 1]));
            } else if x == last - i {
                assert(depends_on(g, w[0], w[1]));
            } else {
                let y = x - (last - i);
                assert(depends_on(g, w[y], w[y + 1]));
            }
        }
        assert(v.last() == w[i]);
        assert(is_lasso(g, v, 0));
        assert(v[0] == w[i]);
        assert(leads_to_cycle(g, w[i]));
    }
}

/// Some identifier is unresolved exactly when the graph has a cycle.
pub proof fn lemma_unresolved_iff_cycle<N>(g: Graph<N>)
    ensures
        has_cycle(g) <==> !unresolved_ids(g).is_empty(),
{
    if has_cycle(g) {
        let w = choose|w: Seq<N>| is_cycle(g, w);
        lemma_cycle_members_are_unresolved(g, w, 0);
    }
    if !unresolved_ids(g).is_empty() {
        let a = choose|a: N| unresolved_ids(g).contains(a);
        let (w, k) = choose|w: Seq<N>, k: int| is_lasso(g, w, k) && w[0] == a;
        lemma_lasso_has_cycle(g, w, k);
    }
}

/// A graph that has a cycle has no topological order.
pub proof fn lemma_topological_order_excludes_cycle<N>(g: Graph<N>, order: Seq<N>)
    requires
        is_topological_order(g, order),
    ensures
        !has_cycle(g),
{
    lemma_order_is_closed(g, order);
    if has_cycle(g) {
        let w = choose|w: Seq<N>| is_cycle(g, w);
        assert(depends_on(g, w[0], w[1]));
        assert(nodes(g).contains(w[0]));
        lemma_closed_order_is_safe(g, order, w[0]);
        assert(is_lasso(g, w, 0));
    }
}

/// A topological order is closed.
pub proof fn lemma_order_is_closed<N>(g: Graph<N>, order: Seq<N>)
    requires
        is_topological_order(g, order),
    ensures
        is_closed_order(g, order),
{
    assert forall|i: int, b: N|
        0 <= i < order.len() && #[trigger] depends_on(g, order[i], b) implies order.take(
        i,
    ).contains(b) by {
        assert(nodes(g).contains(b));
        assert(order.contains(b));
        let j = choose|j: int| 0 <= j < order.len() && order[j] == b;
        assert(depends_on(g, order[i], order[j]));
        assert(order.take(i)[j] == b);
    }
}

/// What the sorter has found once nothing is ready any more: `done` holds the
/// identifiers that could be placed, in order, and `rest` those that could not.
pub proof fn lemma_verdict<N>(g: Graph<N>, done: Seq<N>, rest: Set<N>)
    requires
        done.no_duplicates(),
        is_closed_order(g, done),
        rest.finite(),
        is_stuck(g, rest),
        forall|n: N| nodes(g).contains(n) <==> done.contains(n) || rest.contains(n),
        forall|n: N| rest.contains(n) ==> !done.contains(n),
    ensures
        rest == unresolved_ids(g),
        rest.is_empty() ==> is_topological_order(g, done) && !has_cycle(g),
        !rest.is_empty() ==> has_cycle(g),
{
    assert forall|a: N| rest.contains(a) == unresolved_ids(g).contains(a) by {
        if rest.contains(a) {
            lemma_stuck_leads_to_cycle(g, rest, a);
        }
        if leads_to_cycle(g, a) {
            let (w, k) = choose|w: Seq<N>, k: int| is_lasso(g, w, k) && w[0] == a;
            assert(depends_on(g, w[0], w[1]));
            assert(nodes(g).contains(a));
            if done.contains(a) {
                lemma_closed_order_is_safe(g, done, a);
            }
        }
    }
    assert(rest =~= unresolved_ids(g));
    if rest.is_empty() {
        assert forall|i: int, j: int|
            0 <= i < done.len() && 0 <= j < done.len() && depends_on(
                g,
                done[i],
                done[j],
            ) implies j < i by {
            let prefix = done.take(i);
            assert(prefix.contains(done[j]));
            let q = choose|q: int| 0 <= q < prefix.len() && prefix[q] == done[j];
            assert(done[q] == done[j]);
        }
        assert(is_topological_order(g, done));
        lemma_topological_order_excludes_cycle(g, done);
    } else {
        let a = choose|a: N| rest.contains(a);
        lemma_stuck_leads_to_cycle(g, rest, a);
        let (w, k) = choose|w: Seq<N>, k: int| is_lasso(g, w, k) && w[0] == a;
        lemma_lasso_has_cycle(g, w, k);
    }
}

/// A graph without edges has no cycle, its identifiers are its keys, and
/// every listing of the keys without repetition is a topological order.
pub proof fn lemma_no_edges_is_sortable<N>(g: Graph<N>)
    requires
        has_no_edges(g),
    ensures
        !has_cycle(g),
        nodes(g) == g.dom(),
        forall|order: Seq<N>|
            is_topological_order(g, order) <==> order.no_duplicates() && order.to_set() == g.dom(),
{
    if has_cycle(g) {
        let w = choose|w: Seq<N>| is_cycle(g, w);
        assert(depends_on(g, w[0], w[1]));
    }
    assert(nodes(g) =~= g.dom());
    assert forall|order: Seq<N>|
        is_topological_order(g, order) <==> order.no_duplicates() && order.to_set()
            == g.dom() by {
        if is_topological_order(g, order) {
            assert(order.to_set() =~= g.dom());
        }
        if order.no_duplicates() && order.to_set() == g.dom() {
            assert forall|n: N| order.contains(n) <==> nodes(g).contains(n) by {
                assert(order.to_set().contains(n) <==> order.contains(n));
            }
        }
    }
}

} // verus!
