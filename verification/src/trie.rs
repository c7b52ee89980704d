//! A trie over token paths that answers longest-match queries: the value
//! stored under the longest prefix of a path that has one.

use vstd::prelude::*;
use crate::str::str_eq;

verus! {

/// A path, as contracts see it: its tokens, each by its characters.
pub type Path = Seq<Seq<char>>;

/// The value that `m` holds for the longest prefix of `path` of at most `n`
/// tokens that has one.
pub open spec fn longest_match_within<T>(m: Map<Path, T>, path: Path, n: nat) -> Option<T>
    decreases n,
{
    if m.dom().contains(path.take(n as int)) {
        Some(m[path.take(n as int)])
    } else if n == 0 {
        None
    } else {
        longest_match_within(m, path, (n - 1) as nat)
    }
}

/// The value that `m` holds for the longest prefix of `path` that has one.
pub open spec fn longest_match<T>(m: Map<Path, T>, path: Path) -> Option<T> {
    longest_match_within(m, path, path.len())
}

/// A node of a trie: a value, if a path ends here, and an edge to a child
/// for each token that continues a path.
pub struct TrieNode<'a, T> {
    /// The edges, each with its token and the child it leads to.
    edges: Vec<(&'a str, TrieNode<'a, T>)>,
    data: Option<T>,
}

impl<'a, T> Default for TrieNode<'a, T> {
    /// A node without value and without children.
    fn default() -> (node: Self)
        ensures
            forall|path: Path| node.lookup(path).is_none(),
    {
        let node = TrieNode { edges: Vec::new(), data: None };
        assert forall|path: Path| node.lookup(path).is_none() by {
            if path.len() > 0 {
                Self::lemma_no_edge(node.edges@, path[0]);
            }
        }
        node
    }
}

impl<'a, T> TrieNode<'a, T> {
    /// No two edges of a node carry the same token.
    #[verifier::type_invariant]
    spec fn has_distinct_tokens(self) -> bool {
        forall|i: int, j: int|
            0 <= i < j < self.edges.len() ==> (#[trigger] self.edges[i]).0@ != (
            #[trigger] self.edges[j]).0@
    }

    /// Edge `i` carries `key`, and no edge before it does.
    spec fn is_first_edge(edges: Seq<(&'a str, Self)>, i: int, key: Seq<char>) -> bool {
        &&& 0 <= i < edges.len()
        &&& edges[i].0@ == key
        &&& forall|j: int| 0 <= j < i ==> (#[trigger] edges[j]).0@ != key
    }

    /// The index of the edge for `key`, if there is one.
    spec fn edge_index(edges: Seq<(&'a str, Self)>, key: Seq<char>) -> Option<int> {
        if exists|i: int| Self::is_first_edge(edges, i, key) {
            Some(choose|i: int| Self::is_first_edge(edges, i, key))
        } else {
            None
        }
    }

    /// The value at the end of `path`, walked from this node.
    pub closed spec fn lookup(self, path: Path) -> Option<T>
        decreases path.len(),
    {
        if path.len() == 0 {
            self.data
        } else {
            match Self::edge_index(self.edges@, path[0]) {
                Some(i) => self.edges[i].1.lookup(path.drop_first()),
                None => None,
            }
        }
    }

    proof fn lemma_edge_index(edges: Seq<(&'a str, Self)>, i: int, key: Seq<char>)
        requires
            Self::is_first_edge(edges, i, key),
        ensures
            Self::edge_index(edges, key) == Some(i),
    {
        let c = choose|c: int| Self::is_first_edge(edges, c, key);
        if c < i {
            assert(edges[c].0@ != key);
        }
        if i < c {
            assert(edges[i].0@ != key);
        }
    }

    proof fn lemma_no_edge(edges: Seq<(&'a str, Self)>, key: Seq<char>)
        requires
            forall|i: int| 0 <= i < edges.len() ==> (#[trigger] edges[i]).0@ != key,
        ensures
            Self::edge_index(edges, key).is_none(),
    {
        if exists|i: int| Self::is_first_edge(edges, i, key) {
            let c = choose|c: int| Self::is_first_edge(edges, c, key);
            assert(edges[c].0@ != key);
        }
    }

    /// Where `b` has the edges of `a`, but for children under other tokens
    /// than `key` and for edges beyond those of `a`, which carry other
    /// tokens too, both lead to the same child for `key`.
    proof fn lemma_other_edges(a: Seq<(&'a str, Self)>, b: Seq<(&'a str, Self)>, key: Seq<char>)
        requires
            a.len() <= b.len(),
            forall|i: int|
                0 <= i < a.len() ==> (#[trigger] a[i]).0@ == b[i].0@ && (a[i].0@ == key ==> a[i]
                    == b[i]),
            forall|i: int| a.len() <= i < b.len() ==> (#[trigger] b[i]).0@ != key,
        ensures
            Self::edge_index(a, key) == Self::edge_index(b, key),
            Self::edge_index(a, key) matches Some(i) ==> a[i] == b[i],
    {
        if exists|i: int| Self::is_first_edge(a, i, key) {
            let i = choose|i: int| Self::is_first_edge(a, i, key);
            assert(Self::is_first_edge(b, i, key)) by {
                assert forall|j: int| 0 <= j < i implies (#[trigger] b[j]).0@ != key by {
                    assert(a[j].0@ != key);
                }
                assert(a[i].0@ == b[i].0@);
            }
            Self::lemma_edge_index(b, i, key);
            Self::lemma_edge_index(a, i, key);
        } else if exists|i: int| Self::is_first_edge(b, i, key) {
            let i = choose|i: int| Self::is_first_edge(b, i, key);
            assert(b[i].0@ == key);
            assert(a[i].0@ == key);
            assert(Self::is_first_edge(a, i, key)) by {
                assert forall|j: int| 0 <= j < i implies (#[trigger] a[j]).0@ != key by {
                    assert(b[j].0@ != key);
                }
            }
        }
    }

    /// The index of the edge for `key`, if there is one.
    fn find_edge(edges: &Vec<(&'a str, Self)>, key: &str) -> (r: Option<usize>)
        ensures
            match r {
                Some(i) => i < edges.len() && Self::is_first_edge(edges@, i as int, key@),
                None => forall|j: int| 0 <= j < edges.len() ==> (#[trigger] edges[j]).0@ != key@,
            },
            r.is_some() == Self::edge_index(edges@, key@).is_some(),
            r matches Some(i) ==> Self::edge_index(edges@, key@) == Some(i as int),
    {
        let mut i: usize = 0;
        while i < edges.len()
            invariant
                i <= edges.len(),
                forall|j: int| 0 <= j < i ==> (#[trigger] edges[j]).0@ != key@,
            decreases edges.len() - i,
        {
            if str_eq(edges[i].0, key) {
                proof {
                    Self::lemma_edge_index(edges@, i as int, key@);
                }
                return Some(i);
            }
            i += 1;
        }
        proof {
            Self::lemma_no_edge(edges@, key@);
        }
        None
    }

    /// Stores `data` at the end of the tokens of `path` from position `from`
    /// on, making the nodes on the way that are not there yet.
    fn set_at(&mut self, path: &Vec<&'a str>, from: usize, data: T)
        requires
            from <= path.len(),
        ensures
            forall|p: Path|
                final(self).lookup(p) == if p == path.deep_view().skip(from as int) {
                    Some(data)
                } else {
                    old(self).lookup(p)
                },
        decreases path.len() - from,
    {
        proof {
            use_type_invariant(&*self);
        }
        let ghost target = path.deep_view().skip(from as int);
        let ghost before = *self;
        if from == path.len() {
            self.data = Some(data);
            assert forall|p: Path|
                self.lookup(p) == if p == target {
                    Some(data)
                } else {
                    before.lookup(p)
                } by {
                if p.len() == 0 {
                    assert(p =~= target);
                }
            }
        } else {
            let key: &'a str = path[from];
            let mut edges: Vec<(&'a str, Self)> = Vec::new();
            std::mem::swap(&mut edges, &mut self.edges);
            let at = match Self::find_edge(&edges, key) {
                Some(i) => i,
                None => {
                    edges.push((key, TrieNode::default()));
                    edges.len() - 1
                },
            };
            let ghost grown = edges@;
            let ghost child = edges[at as int].1;
            assert(Self::is_first_edge(grown, at as int, key@));
            edges[at].1.set_at(path, from + 1, data);
            assert(edges@ =~= grown.update(at as int, (grown[at as int].0, edges[at as int].1)));
            self.edges = edges;
            proof {
                let changed = self.edges@;
                assert(key@ == target[0]);
                assert(target.drop_first() =~= path.deep_view().skip(from + 1));
                assert(Self::is_first_edge(changed, at as int, key@));
                Self::lemma_edge_index(changed, at as int, key@);
                assert forall|p: Path|
                    self.lookup(p) == if p == target {
                        Some(data)
                    } else {
                        before.lookup(p)
                    } by {
                    if p.len() > 0 && p[0] == key@ {
                        assert(self.lookup(p) == changed[at as int].1.lookup(p.drop_first()));
                        assert(before.lookup(p) == child.lookup(p.drop_first())) by {
                            if at < before.edges.len() {
                                Self::lemma_edge_index(before.edges@, at as int, key@);
                            } else {
                                Self::lemma_no_edge(before.edges@, key@);
                            }
                        }
                        if p.drop_first() == target.drop_first() {
                            assert(p =~= target) by {
                                assert forall|k: int| 0 <= k < p.len() implies p[k]
                                    == target[k] by {
                                    if k > 0 {
                                        assert(p.drop_first()[k - 1] == target.drop_first()[k - 1]);
                                    }
                                }
                                assert(p.drop_first().len() == target.drop_first().len());
                            }
                        }
                    } else if p.len() > 0 {
                        Self::lemma_other_edges(before.edges@, changed, p[0]);
                    }
                }
            }
        }
    }
}

/// A trie: values stored under token paths.
pub struct Trie<'a, T> {
    root: TrieNode<'a, T>,
}

impl<'a, T> View for Trie<'a, T> {
    type V = Map<Seq<Seq<char>>, T>;

    /// The stored values by their paths.
    closed spec fn view(&self) -> Map<Seq<Seq<char>>, T> {
        Map::new(|p: Path| self.root.lookup(p).is_some(), |p: Path| self.root.lookup(p).unwrap())
    }
}

impl<'a, T> Default for Trie<'a, T> {
    fn default() -> (trie: Self)
        ensures
            trie@ == Map::<Seq<Seq<char>>, T>::empty(),
    {
        Self::new()
    }
}

impl<'a, T> Trie<'a, T> {
    /// A trie that stores nothing.
    pub fn new() -> (trie: Self)
        ensures
            trie@ == Map::<Seq<Seq<char>>, T>::empty(),
    {
        let trie = Trie { root: TrieNode::default() };
        assert(trie@ =~= Map::empty());
        trie
    }

    /// Stores `data` under `path`, in place of what was stored there.
    pub fn insert(&mut self, path: Vec<&'a str>, data: T)
        ensures
            final(self)@ == old(self)@.insert(path.deep_view(), data),
    {
        let ghost before = self@;
        self.root.set_at(&path, 0, data);
        assert(path.deep_view().skip(0) =~= path.deep_view());
        assert(self@ =~= before.insert(path.deep_view(), data));
    }

    /// The value stored under the longest prefix of `request_path` that has one.
    pub fn find_longest_match(&'a self, request_path: Vec<&'a str>) -> (r: Option<&T>)
        ensures
            match r {
                Some(data) => longest_match(self@, request_path.deep_view()) == Some(*data),
                None => longest_match(self@, request_path.deep_view()).is_none(),
            },
    {
        let ghost m = self@;
        let ghost q = request_path.deep_view();
        let mut node = &self.root;
        let mut last_matched_data: Option<&T> = None;
        match &node.data {
            Some(data) => {
                last_matched_data = Some(data);
            },
            None => {},
        }
        proof {
            assert(q.take(0) =~= Seq::empty());
            assert forall|s: Path| self.root.lookup(q.take(0) + s) == node.lookup(s) by {
                assert(q.take(0) + s =~= s);
            }
        }
        let mut i: usize = 0;
        let mut walking = true;
        while walking && i < request_path.len()
            invariant
                m == self@,
                q == request_path.deep_view(),
                i <= request_path.len(),
                forall|s: Path| self.root.lookup(q.take(i as int) + s) == node.lookup(s),
                match last_matched_data {
                    Some(data) => longest_match_within(m, q, i as nat) == Some(*data),
                    None => longest_match_within(m, q, i as nat).is_none(),
                },
                !walking ==> i < request_path.len() && TrieNode::edge_index(
                    node.edges@,
                    q[i as int],
                ).is_none(),
            decreases request_path.len() - i + if walking { 1nat } else { 0nat },
        {
            match TrieNode::find_edge(&node.edges, request_path[i]) {
                Some(k) => {
                    let ghost parent = *node;
                    node = &node.edges[k].1;
                    proof {
                        assert forall|s: Path| self.root.lookup(q.take(i + 1) + s) == node.lookup(
                            s,
                        ) by {
                            let t = seq![q[i as int]] + s;
                            assert(q.take(i as int) + t =~= q.take(i + 1) + s);
                            assert(t.drop_first() =~= s);
                            assert(parent.lookup(t) == node.lookup(s));
                        }
                        assert(q.take(i + 1) + Seq::<Seq<char>>::empty() =~= q.take(i + 1));
                        assert(self.root.lookup(q.take(i + 1)) == node.lookup(Seq::empty()));
                        assert(m.dom().contains(q.take(i + 1)) == node.data.is_some());
                        assert(longest_match_within(m, q, (i + 1) as nat) == if m.dom().contains(
                            q.take(i + 1),
                        ) {
                            Some(m[q.take(i + 1)])
                        } else {
                            longest_match_within(m, q, i as nat)
                        });
                    }
                    match &node.data {
                        Some(data) => {
                            last_matched_data = Some(data);
                        },
                        None => {},
                    }
                    i += 1;
                },
                None => {
                    walking = false;
                },
            }
        }
        proof {
            if !walking {
                lemma_no_match_beyond(self.root, *node, m, q, i as int, q.len() as int);
            }
        }
        last_matched_data
    }
}

/// Once the walk along `q` has stopped at `node` after `i` tokens for want
/// of an edge, no longer prefix of `q` holds a value.
proof fn lemma_no_match_beyond<'a, T>(
    root: TrieNode<'a, T>,
    node: TrieNode<'a, T>,
    m: Map<Path, T>,
    q: Path,
    i: int,
    n: int,
)
    requires
        0 <= i < q.len(),
        i <= n <= q.len(),
        forall|s: Path| root.lookup(q.take(i) + s) == node.lookup(s),
        TrieNode::edge_index(node.edges@, q[i]).is_none(),
        forall|p: Path| m.dom().contains(p) <==> root.lookup(p).is_some(),
    ensures
        longest_match_within(m, q, n as nat) == longest_match_within(m, q, i as nat),
    decreases n - i,
{
    if n > i {
        let s = q.subrange(i, n);
        assert(q.take(i) + s =~= q.take(n));
        assert(s[0] == q[i]);
        assert(node.lookup(s).is_none());
        lemma_no_match_beyond(root, node, m, q, i, n - 1);
    }
}

/// The longest match within `n` tokens is the value of the longest stored
/// prefix of at most `n` tokens.
proof fn lemma_match_within<T>(m: Map<Path, T>, path: Path, n: nat, k: int)
    requires
        0 <= k <= n <= path.len(),
        m.dom().contains(path.take(k)),
        forall|j: int| k < j <= n ==> !m.dom().contains(#[trigger] path.take(j)),
    ensures
        longest_match_within(m, path, n) == Some(m[path.take(k)]),
    decreases n - k,
{
    if k < n {
        assert(!m.dom().contains(path.take(n as int)));
        lemma_match_within(m, path, (n - 1) as nat, k);
    }
}

/// Where no prefix of at most `n` tokens is stored, nothing matches within `n` tokens.
proof fn lemma_no_match_within<T>(m: Map<Path, T>, path: Path, n: nat)
    requires
        n <= path.len(),
        forall|j: int| 0 <= j <= n ==> !m.dom().contains(#[trigger] path.take(j)),
    ensures
        longest_match_within(m, path, n).is_none(),
    decreases n,
{
    assert(!m.dom().contains(path.take(n as int)));
    if n > 0 {
        lemma_no_match_within(m, path, (n - 1) as nat);
    }
}

/// A stored prefix of `path` wins the match when no stored prefix of `path`
/// is longer.
pub proof fn lemma_longest_prefix_wins<T>(m: Map<Path, T>, prefix: Path, path: Path)
    requires
        m.dom().contains(prefix),
        prefix.is_prefix_of(path),
        forall|p: Path| m.dom().contains(p) && p.is_prefix_of(path) ==> p.len() <= prefix.len(),
    ensures
        longest_match(m, path) == Some(m[prefix]),
{
    let k = prefix.len() as int;
    assert(path.take(k) =~= prefix);
    assert forall|j: int| k < j <= path.len() implies !m.dom().contains(#[trigger] path.take(j)) by {
        assert(path.take(j).is_prefix_of(path));
    }
    lemma_match_within(m, path, path.len(), k);
}

/// Where no prefix of `path` is stored, nothing matches.
pub proof fn lemma_no_prefix_no_match<T>(m: Map<Path, T>, path: Path)
    requires
        forall|p: Path| m.dom().contains(p) ==> !p.is_prefix_of(path),
    ensures
        longest_match(m, path).is_none(),
{
    assert forall|j: int| 0 <= j <= path.len() implies !m.dom().contains(#[trigger] path.take(j)) by {
        assert(path.take(j).is_prefix_of(path));
    }
    lemma_no_match_within(m, path, path.len());
}

/// What has just been stored under a path is what a query for that very
/// path finds.
pub proof fn lemma_exact_match<T>(m: Map<Path, T>, path: Path, value: T)
    ensures
        longest_match(m.insert(path, value), path) == Some(value),
{
    assert(path.take(path.len() as int) =~= path);
}

/// With values stored under `short` and under its extension `long`, a query
/// that extends `long` finds the value of `long`, and a query that extends
/// `short` but not `long` finds the value of `short`, as long as nothing
/// stored before under a longer prefix of the query stands in the way.
pub proof fn lemma_nested_prefixes<T>(
    m: Map<Path, T>,
    short: Path,
    short_value: T,
    long: Path,
    long_value: T,
    query: Path,
)
    requires
        short.is_prefix_of(long),
        short.len() < long.len(),
        short.is_prefix_of(query),
        forall|p: Path|
            m.dom().contains(p) && p.is_prefix_of(query) ==> p.len() <= if long.is_prefix_of(query) {
                long.len()
            } else {
                short.len()
            },
    ensures
        longest_match(m.insert(short, short_value).insert(long, long_value), query) == Some(
            if long.is_prefix_of(query) {
                long_value
            } else {
                short_value
            },
        ),
{
    let stored = m.insert(short, short_value).insert(long, long_value);
    if long.is_prefix_of(query) {
        lemma_longest_prefix_wins(stored, long, query);
    } else {
        lemma_longest_prefix_wins(stored, short, query);
    }
}

} // verus!
