//! k-alt-path coverage of a grammar graph.
//!
//! Only alternations carry information: at a nonterminal or a concatenation
//! expansion follows every outgoing edge, while at an alternation exactly one
//! branch is taken. An alt-path is therefore a walk `x_1 ... x_n` (`n > 1`)
//! through the grammar graph that begins at an alternation and whose last
//! step leaves one (`x_{n-1}` is an alternation); it counts the alternations
//! among `x_1 ... x_{n-1}`, and `k`-alt-path coverage takes the alt-paths
//! that count between one and `k` of them. A walk through nonterminals and
//! concatenations alone can run in a cycle, so a walk that passes some node
//! twice is also capped at [`MAX_ALT_PATH_NODES`] nodes; a walk that passes
//! no node twice is never cut, however long.
//!
//! The sets and maps are `hashbrown`'s, as in the grammar tooling; the
//! library sees each through a name for its contents.

use vstd::prelude::*;
use hashbrown::{HashMap, HashSet};
use mappable_rc::Mrc;
use std::ops::ControlFlow;

verus! {

/// Bound on how many nodes an alt-path that passes some node twice may
/// span. An alt-path that passes no node twice is not bounded by it, so the
/// bound only matters when a grammar has a cycle.
pub const MAX_ALT_PATH_NODES: usize = 64;

// ---------------------------------------------------------------------------
// hashbrown collections
// ---------------------------------------------------------------------------
/// A set of grammar node numbers, held in a `hashbrown::HashSet<usize>`.
#[verifier::external_body]
pub struct NodeSet {
    nodes: HashSet<usize>,
}

/// The node numbers that a [`NodeSet`] holds.
pub uninterp spec fn node_set(s: NodeSet) -> Set<usize>;

impl NodeSet {
    /// `HashSet::new`: an empty set.
    #[verifier::external_body]
    pub(crate) fn new() -> (s: NodeSet)
        ensures
            node_set(s) == Set::<usize>::empty(),
    {
        NodeSet { nodes: HashSet::new() }
    }

    /// `HashSet::insert`: adds `node`, and tells whether it was absent.
    #[verifier::external_body]
    pub(crate) fn insert(&mut self, node: usize) -> (fresh: bool)
        ensures
            node_set(*final(self)) == node_set(*old(self)).insert(node),
            fresh == !node_set(*old(self)).contains(node),
    {
        self.nodes.insert(node)
    }

    /// `HashSet::contains`: whether `node` is in the set.
    #[verifier::external_body]
    pub(crate) fn contains(&self, node: usize) -> (r: bool)
        ensures
            r == node_set(*self).contains(node),
    {
        self.nodes.contains(&node)
    }

    /// `HashSet::iter`: every node of the set once, in no particular order.
    #[verifier::external_body]
    pub(crate) fn to_vec(&self) -> (v: Vec<usize>)
        ensures
            v@.to_set() == node_set(*self),
            v@.no_duplicates(),
    {
        self.nodes.iter().copied().collect()
    }

    /// `HashSet::clone`: a set with the same nodes.
    #[verifier::external_body]
    pub(crate) fn duplicate(&self) -> (s: NodeSet)
        ensures
            node_set(s) == node_set(*self),
    {
        NodeSet { nodes: self.nodes.clone() }
    }
}

/// The edges of a grammar graph: the children of each node, in a
/// `hashbrown::HashMap<usize, Vec<usize>>`.
#[verifier::external_body]
pub struct EdgeMap {
    children: HashMap<usize, Vec<usize>>,
}

/// The children of every node that an [`EdgeMap`] lists.
pub uninterp spec fn edge_map(e: EdgeMap) -> Map<usize, Seq<usize>>;

impl EdgeMap {
    /// `HashMap::new`: no edges.
    #[verifier::external_body]
    pub(crate) fn new() -> (edges: EdgeMap)
        ensures
            edge_map(edges).dom() == Set::<usize>::empty(),
    {
        EdgeMap { children: HashMap::new() }
    }

    /// `HashMap::insert`: sets the children of `parent`, and tells whether
    /// it had some already.
    #[verifier::external_body]
    pub(crate) fn insert(&mut self, parent: usize, children: Vec<usize>) -> (replaced: bool)
        ensures
            edge_map(*final(self)) == edge_map(*old(self)).insert(parent, children@),
            replaced == edge_map(*old(self)).dom().contains(parent),
    {
        self.children.insert(parent, children).is_some()
    }

    /// `HashMap::get`: the children of `parent`, if it has an entry.
    #[verifier::external_body]
    pub(crate) fn get(&self, parent: usize) -> (r: Option<&Vec<usize>>)
        ensures
            match r {
                Some(c) => edge_map(*self).dom().contains(parent) && c@ == edge_map(*self)[parent],
                None => !edge_map(*self).dom().contains(parent),
            },
    {
        self.children.get(&parent)
    }
}

/// How often each alt-path has been seen, in a
/// `hashbrown::HashMap<Mrc<[usize]>, usize>` keyed by the path.
#[verifier::external_body]
pub struct PathCounts {
    counts: HashMap<Mrc<[usize]>, usize>,
}

/// The count of every path that a [`PathCounts`] holds.
pub uninterp spec fn path_counts(c: PathCounts) -> Map<Seq<usize>, usize>;

impl PathCounts {
    /// `HashMap::new`: no paths.
    #[verifier::external_body]
    pub(crate) fn new() -> (counts: PathCounts)
        ensures
            path_counts(counts).dom() == Set::<Seq<usize>>::empty(),
    {
        PathCounts { counts: HashMap::new() }
    }

    /// `HashMap::insert`, keyed by an `Mrc` copy of the path: sets its count.
    #[verifier::external_body]
    pub(crate) fn insert(&mut self, path: &[usize], count: usize)
        ensures
            path_counts(*final(self)) == path_counts(*old(self)).insert(path@, count),
    {
        self.counts.insert(Mrc::from(path), count);
    }

    /// `HashMap::get`: the count of `path`, if it is held.
    #[verifier::external_body]
    pub(crate) fn get(&self, path: &[usize]) -> (r: Option<usize>)
        ensures
            match r {
                Some(n) => path_counts(*self).dom().contains(path@) && n == path_counts(*self)[path@],
                None => !path_counts(*self).dom().contains(path@),
            },
    {
        self.counts.get(path).copied()
    }

    /// `HashMap::keys`: every held path once, in no particular order.
    #[verifier::external_body]
    pub(crate) fn paths(&self) -> (v: Vec<Vec<usize>>)
        ensures
            v.deep_view().to_set() == path_counts(*self).dom(),
            v.deep_view().no_duplicates(),
    {
        self.counts.keys().map(|p| p.to_vec()).collect()
    }
}

// ---------------------------------------------------------------------------
// Alt-paths
// ---------------------------------------------------------------------------
/// The number of alternations among the nodes of `s`.
pub open spec fn count_alt(alt: Set<usize>, s: Seq<usize>) -> nat
    decreases s.len(),
{
    if s.len() == 0 {
        0
    } else {
        count_alt(alt, s.drop_last()) + if alt.contains(s.last()) {
            1nat
        } else {
            0nat
        }
    }
}

/// Whether every step of `p` follows an edge of the graph.
pub open spec fn is_walk(edges: Map<usize, Seq<usize>>, p: Seq<usize>) -> bool {
    forall|i: int|
        0 <= i < p.len() - 1 ==> edges.dom().contains(#[trigger] p[i]) && edges[p[i]].contains(
            p[i + 1],
        )
}

/// Whether `p` is a `k`-alt-path: a walk of at least two nodes that starts
/// at an alternation, whose last step leaves one, and that passes at most
/// `k` alternations before its last node; a walk that passes some node twice
/// has at most [`MAX_ALT_PATH_NODES`] nodes.
pub open spec fn is_alt_path(alt: Set<usize>, edges: Map<usize, Seq<usize>>, k: nat, p: Seq<usize>) -> bool {
    &&& 2 <= p.len()
    &&& (p.len() <= MAX_ALT_PATH_NODES || p.no_duplicates())
    &&& alt.contains(p[0])
    &&& alt.contains(p[p.len() - 2])
    &&& is_walk(edges, p)
    &&& count_alt(alt, p.drop_last()) <= k
}

/// Every `k`-alt-path of the graph.
pub open spec fn alt_path_set(alt: Set<usize>, edges: Map<usize, Seq<usize>>, k: nat) -> Set<Seq<usize>> {
    Set::new(|p: Seq<usize>| is_alt_path(alt, edges, k, p))
}

/// The alt-paths that extend `q`, and whose next node after `q` is one of
/// `next`.
pub open spec fn extensions_via(
    alt: Set<usize>,
    edges: Map<usize, Seq<usize>>,
    k: nat,
    q: Seq<usize>,
    next: Seq<usize>,
) -> Set<Seq<usize>> {
    Set::new(
        |p: Seq<usize>|
            is_alt_path(alt, edges, k, p) && q.len() < p.len() && p.take(q.len() as int) == q
                && next.contains(p[q.len() as int]),
    )
}

/// The alt-paths that extend `q`.
pub open spec fn extensions(alt: Set<usize>, edges: Map<usize, Seq<usize>>, k: nat, q: Seq<usize>) -> Set<Seq<usize>> {
    Set::new(
        |p: Seq<usize>|
            is_alt_path(alt, edges, k, p) && q.len() < p.len() && p.take(q.len() as int) == q,
    )
}

/// A walk from an alternation that may still be extended into alt-paths.
pub open spec fn extendable(alt: Set<usize>, edges: Map<usize, Seq<usize>>, k: nat, q: Seq<usize>) -> bool {
    &&& 1 <= q.len()
    &&& (q.len() < MAX_ALT_PATH_NODES || q.no_duplicates())
    &&& alt.contains(q[0])
    &&& is_walk(edges, q)
    &&& count_alt(alt, q) <= k
}

/// The parent and children of every edge entry.
pub open spec fn edge_pairs(edges: Seq<(usize, Vec<usize>)>) -> Seq<(usize, Seq<usize>)> {
    edges.map_values(|e: (usize, Vec<usize>)| (e.0, e.1@))
}

/// The children of each node, a later entry for a node replacing an earlier
/// one.
pub open spec fn edges_of(pairs: Seq<(usize, Seq<usize>)>) -> Map<usize, Seq<usize>>
    decreases pairs.len(),
{
    if pairs.len() == 0 {
        Map::empty()
    } else {
        edges_of(pairs.drop_last()).insert(pairs.last().0, pairs.last().1)
    }
}

proof fn lemma_edges_of_finite(pairs: Seq<(usize, Seq<usize>)>)
    ensures
        edges_of(pairs).dom().finite(),
    decreases pairs.len(),
{
    if pairs.len() > 0 {
        lemma_edges_of_finite(pairs.drop_last());
    }
}

/// Whether every count is zero.
pub open spec fn all_zero(m: Map<Seq<usize>, usize>) -> bool {
    forall|p: Seq<usize>| #[trigger] m.dom().contains(p) ==> m[p] == 0
}

proof fn lemma_count_alt_len(alt: Set<usize>, s: Seq<usize>)
    ensures
        count_alt(alt, s) <= s.len(),
    decreases s.len(),
{
    if s.len() > 0 {
        lemma_count_alt_len(alt, s.drop_last());
    }
}

proof fn lemma_count_alt_prefix(alt: Set<usize>, s: Seq<usize>, i: int)
    requires
        0 <= i <= s.len(),
    ensures
        count_alt(alt, s.take(i)) <= count_alt(alt, s),
    decreases s.len() - i,
{
    if i < s.len() {
        lemma_count_alt_prefix(alt, s, i + 1);
        assert(s.take(i + 1).drop_last() =~= s.take(i));
    } else {
        assert(s.take(i) =~= s);
    }
}

proof fn lemma_take_distinct(s: Seq<usize>, n: int)
    requires
        s.no_duplicates(),
        0 <= n <= s.len(),
    ensures
        s.take(n).no_duplicates(),
{
    assert forall|i: int, j: int| 0 <= i < n && 0 <= j < n && i != j implies s.take(n)[i] != s.take(n)[j] by {
        assert(s.take(n)[i] == s[i] && s.take(n)[j] == s[j]);
    }
}

proof fn lemma_push_distinct(s: Seq<usize>, x: usize)
    ensures
        s.push(x).no_duplicates() == (s.no_duplicates() && !s.contains(x)),
{
    let t = s.push(x);
    if t.no_duplicates() {
        assert forall|i: int, j: int| 0 <= i < s.len() && 0 <= j < s.len() && i != j implies s[i] != s[j] by {
            assert(t[i] == s[i] && t[j] == s[j]);
        }
        if s.contains(x) {
            let i = choose|i: int| 0 <= i < s.len() && s[i] == x;
            assert(t[i] == x && t[s.len() as int] == x);
        }
    }
    if s.no_duplicates() && !s.contains(x) {
        assert forall|i: int, j: int| 0 <= i < t.len() && 0 <= j < t.len() && i != j implies t[i] != t[j] by {
            if i < s.len() && j < s.len() {
                assert(t[i] == s[i] && t[j] == s[j]);
            } else if i < s.len() {
                assert(t[i] == s[i]);
            } else {
                assert(t[j] == s[j]);
            }
        }
    }
}

/// A sequence that repeats nothing and lies in a finite set is no longer
/// than the set.
proof fn lemma_distinct_bound<A>(s: Seq<A>, d: Set<A>)
    requires
        s.no_duplicates(),
        d.finite(),
        forall|i: int| 0 <= i < s.len() ==> d.contains(#[trigger] s[i]),
    ensures
        s.len() <= d.len(),
{
    s.unique_seq_to_set();
    assert forall|x: A| s.to_set().contains(x) implies d.contains(x) by {
        let i = choose|i: int| 0 <= i < s.len() && s[i] == x;
    }
    vstd::set_lib::lemma_len_subset(s.to_set(), d);
}

proof fn lemma_extension_step(
    alt: Set<usize>,
    edges: Map<usize, Seq<usize>>,
    k: nat,
    q: Seq<usize>,
    child: usize,
    p: Seq<usize>,
)
    requires
        extendable(alt, edges, k, q),
        is_alt_path(alt, edges, k, p),
        q.len() < p.len(),
        p.take(q.len() as int) == q,
        p[q.len() as int] == child,
    ensures
        p.take(q.len() as int + 1) == q.push(child),
        p == q.push(child) || (extensions(alt, edges, k, q.push(child)).contains(p) && count_alt(
            alt,
            q.push(child),
        ) <= k && (q.len() + 1 < MAX_ALT_PATH_NODES || q.push(child).no_duplicates())),
{
    let e = q.push(child);
    assert(p.take(q.len() as int + 1) =~= e);
    if p.len() > e.len() {
        assert(p.drop_last().take(e.len() as int) =~= e);
        lemma_count_alt_prefix(alt, p.drop_last(), e.len() as int);
        if p.len() > MAX_ALT_PATH_NODES {
            lemma_take_distinct(p, e.len() as int);
        }
    } else {
        assert(p =~= e);
    }
}

/// One child's step of [`collect_from`]: `before` held the extensions of
/// `q` through the first `j` children, `mid` adds the one-step extension
/// through child `j` where it is an alt-path, and `after` adds the longer
/// ones where the walk went on (`go`).
#[verifier::spinoff_prover]
#[verifier::rlimit(80)]
proof fn lemma_collect_step(
    a: Set<usize>,
    g: Map<usize, Seq<usize>>,
    k: nat,
    q: Seq<usize>,
    children: Seq<usize>,
    j: int,
    start: Set<Seq<usize>>,
    before: Set<Seq<usize>>,
    mid: Set<Seq<usize>>,
    after: Set<Seq<usize>>,
    go: bool,
)
    requires
        extendable(a, g, k, q),
        0 <= j < children.len(),
        g.dom().contains(q.last()),
        g[q.last()] == children,
        before == start.union(extensions_via(a, g, k, q, children.take(j))),
        mid == (if is_alt_path(a, g, k, q.push(children[j])) {
            before.insert(q.push(children[j]))
        } else {
            before
        }),
        go == (count_alt(a, q.push(children[j])) <= k && (q.len() + 1 < MAX_ALT_PATH_NODES
            || q.push(children[j]).no_duplicates())),
        go ==> after == mid.union(extensions(a, g, k, q.push(children[j]))),
        !go ==> after == mid,
    ensures
        after == start.union(extensions_via(a, g, k, q, children.take(j + 1))),
{
    let child = children[j];
    let e = q.push(child);
    let ext_e = extensions(a, g, k, e);
    let t0 = children.take(j);
    let t1 = children.take(j + 1);
    let s0 = extensions_via(a, g, k, q, t0);
    let s1 = extensions_via(a, g, k, q, t1);
    assert(t1 =~= t0.push(child));
    assert forall|p: Seq<usize>| s1.contains(p) implies s0.contains(p) || p == e || ext_e.contains(p) by {
        if !s0.contains(p) {
            let x = p[q.len() as int];
            assert(t1.contains(x));
            if x != child {
                let w = choose|w: int| 0 <= w < t1.len() && #[trigger] t1[w] == x;
                assert(t0[w] == x);
                assert(t0.contains(x));
            }
            lemma_extension_step(a, g, k, q, child, p);
        }
    }
    assert forall|p: Seq<usize>| ext_e.contains(p) implies s1.contains(p) by {
        assert(p.take(e.len() as int) == e);
        assert(p.take(q.len() as int) =~= e.take(q.len() as int));
        assert(e.take(q.len() as int) =~= q);
        assert(p[q.len() as int] == e[q.len() as int]);
        assert(t1[j] == child);
    }
    assert forall|p: Seq<usize>| s0.contains(p) implies s1.contains(p) by {
        let x = p[q.len() as int];
        let w = choose|w: int| 0 <= w < t0.len() && #[trigger] t0[w] == x;
        assert(t1[w] == x);
    }
    if is_alt_path(a, g, k, e) {
        assert(e.take(q.len() as int) =~= q);
        assert(t1[j] == child);
        assert(s1.contains(e));
    }
    if !go {
        assert forall|p: Seq<usize>| !ext_e.contains(p) by {
            if is_alt_path(a, g, k, p) && e.len() < p.len() && p.take(e.len() as int) == e {
                assert(p.drop_last().take(e.len() as int) =~= e);
                lemma_count_alt_prefix(a, p.drop_last(), e.len() as int);
                if p.len() > MAX_ALT_PATH_NODES {
                    lemma_take_distinct(p, e.len() as int);
                }
            }
        }
    }
    assert(after =~= start.union(s1));
}

/// Whether `node` occurs in `path`.
fn contains_node(path: &Vec<usize>, node: usize) -> (b: bool)
    ensures
        b == path@.contains(node),
{
    let mut i: usize = 0;
    while i < path.len()
        invariant
            i <= path@.len(),
            forall|j: int| 0 <= j < i ==> path@[j] != node,
        decreases path.len() - i,
    {
        if path[i] == node {
            return true;
        }
        i += 1;
    }
    false
}

/// Adds to `collected`, with count zero, every alt-path that extends `path`.
#[verifier::spinoff_prover]
#[verifier::rlimit(60)]
fn collect_from(
    k: usize,
    alt: &NodeSet,
    edges: &EdgeMap,
    path: Vec<usize>,
    countalt: usize,
    distinct: bool,
    collected: &mut PathCounts,
)
    requires
        extendable(node_set(*alt), edge_map(*edges), k as nat, path@),
        countalt == count_alt(node_set(*alt), path@),
        distinct == path@.no_duplicates(),
        edge_map(*edges).dom().finite(),
        all_zero(path_counts(*old(collected))),
    ensures
        all_zero(path_counts(*final(collected))),
        path_counts(*final(collected)).dom() == path_counts(*old(collected)).dom().union(
            extensions(node_set(*alt), edge_map(*edges), k as nat, path@),
        ),
    decreases MAX_ALT_PATH_NODES + edge_map(*edges).dom().len() + 1 - path@.len(),
{
    let ghost a = node_set(*alt);
    let ghost g = edge_map(*edges);
    let ghost q = path@;
    let ghost start = path_counts(*collected).dom();
    let tail = path[path.len() - 1];
    match edges.get(tail) {
        None => {
            proof {
                assert(extensions(a, g, k as nat, q) =~= Set::<Seq<usize>>::empty()) by {
                    assert forall|p: Seq<usize>| !extensions(a, g, k as nat, q).contains(p) by {
                        if is_alt_path(a, g, k as nat, p) && q.len() < p.len() && p.take(q.len() as int) == q {
                            assert(p[q.len() - 1] == q[q.len() - 1]);
                        }
                    }
                }
                assert(start.union(Set::<Seq<usize>>::empty()) =~= start);
            }
        },
        Some(children) => {
            let tail_is_alt = alt.contains(tail);
            let mut j: usize = 0;
            assert(extensions_via(a, g, k as nat, q, children@.take(0)) =~= Set::<Seq<usize>>::empty());
            assert(start.union(Set::<Seq<usize>>::empty()) =~= start);
            while j < children.len()
                invariant
                    a == node_set(*alt),
                    g == edge_map(*edges),
                    q == path@,
                    extendable(a, g, k as nat, q),
                    countalt == count_alt(a, q),
                    distinct == q.no_duplicates(),
                    g.dom().finite(),
                    tail == q.last(),
                    tail_is_alt == a.contains(tail),
                    g.dom().contains(tail),
                    children@ == g[tail],
                    j <= children@.len(),
                    all_zero(path_counts(*collected)),
                    path_counts(*collected).dom() == start.union(
                        extensions_via(a, g, k as nat, q, children@.take(j as int)),
                    ),
                decreases children.len() - j,
            {
                let child = children[j];
                let mut extended = path.clone();
                extended.push(child);
                let ghost e = extended@;
                let ghost before = path_counts(*collected).dom();
                proof {
                    assert(e == q.push(child));
                    assert(g[tail].contains(child));
                    assert(is_walk(g, e)) by {
                        assert forall|i: int| 0 <= i < e.len() - 1 implies g.dom().contains(#[trigger] e[i]) && g[e[i]].contains(e[i + 1]) by {
                            if i < q.len() - 1 {
                                assert(e[i] == q[i] && e[i + 1] == q[i + 1]);
                            } else {
                                assert(e[i] == tail && e[i + 1] == child);
                            }
                        }
                    }
                    assert(e.drop_last() =~= q);
                    assert(e[0] == q[0]);
                    assert(e[e.len() - 2] == tail);
                }
                let fresh = !contains_node(&path, child);
                let ext_distinct = distinct && fresh;
                proof {
                    lemma_push_distinct(q, child);
                }
                proof {
                    assert(is_alt_path(a, g, k as nat, e) == (tail_is_alt && countalt <= k && (e.len() <= MAX_ALT_PATH_NODES || ext_distinct)));
                }
                if tail_is_alt && countalt <= k && (extended.len() <= MAX_ALT_PATH_NODES || ext_distinct) {
                    collected.insert(extended.as_slice(), 0);
                    assert(path_counts(*collected).dom() =~= before.insert(e));
                }
                let step: usize = if alt.contains(child) {
                    1
                } else {
                    0
                };
                proof {
                    lemma_count_alt_len(a, q);
                }
                let elen = extended.len();
                assert(countalt <= q.len() && q.len() + 1 == elen);
                let next = countalt + step;
                let ghost mid = path_counts(*collected).dom();
                if next <= k && (extended.len() < MAX_ALT_PATH_NODES || ext_distinct) {
                    proof {
                        assert(count_alt(a, e) == next);
                        if ext_distinct {
                            lemma_distinct_bound(e.drop_last(), g.dom());
                        }
                    }
                    collect_from(k, alt, edges, extended, next, ext_distinct, collected);
                }
                proof {
                    lemma_collect_step(a, g, k as nat, q, children@, j as int, start, before, mid, path_counts(*collected).dom(), next <= k && (e.len() < MAX_ALT_PATH_NODES || ext_distinct));
                }
                j += 1;
            }
            proof {
                assert(children@.take(j as int) =~= children@);
                assert forall|p: Seq<usize>| extensions(a, g, k as nat, q).contains(p) implies extensions_via(a, g, k as nat, q, children@).contains(p) by {
                    assert(p[q.len() - 1] == q[q.len() - 1]);
                }
                assert(extensions_via(a, g, k as nat, q, children@) =~= extensions(a, g, k as nat, q));
            }
        },
    }
}

/// Whether a path has not been seen yet.
pub open spec fn unseen(m: Map<Seq<usize>, usize>) -> spec_fn(Seq<usize>) -> bool {
    |p: Seq<usize>| m[p] == 0
}

/// The mathematical content of [`AltPaths`].
#[verifier::ext_equal]
pub struct AltPathsView {
    pub k: nat,
    pub alt: Set<usize>,
    pub lookup: Map<Seq<usize>, usize>,
}

/// The state of a k-alt-path computation: the alternations of the grammar
/// graph, and how often each of its k-alt-paths has been seen.
pub struct AltPaths {
    k: usize,
    alt: NodeSet,
    lookup: PathCounts,
}

impl View for AltPaths {
    type V = AltPathsView;

    closed spec fn view(&self) -> AltPathsView {
        AltPathsView { k: self.k as nat, alt: node_set(self.alt), lookup: path_counts(self.lookup) }
    }
}

impl AltPaths {
    /// Every alt-path of the graph with edges `edges`, whose alternations
    /// are `alt`, that passes between one and `k` alternations, each seen
    /// zero times so far.
    fn enumerate(k: usize, alt: &NodeSet, edges: &EdgeMap) -> (paths: AltPaths)
        requires
            k > 0,
            edge_map(*edges).dom().finite(),
        ensures
            paths@.k == k,
            paths@.alt == node_set(*alt),
            paths@.lookup.dom() == alt_path_set(node_set(*alt), edge_map(*edges), k as nat),
            all_zero(paths@.lookup),
    {
        let ghost a = node_set(*alt);
        let ghost g = edge_map(*edges);
        let mut collected = PathCounts::new();
        let origins = alt.to_vec();
        let mut i: usize = 0;
        assert(path_counts(collected).dom() =~= Set::<Seq<usize>>::empty());
        while i < origins.len()
            invariant
                a == node_set(*alt),
                g == edge_map(*edges),
                g.dom().finite(),
                k > 0,
                origins@.to_set() == a,
                i <= origins@.len(),
                all_zero(path_counts(collected)),
                path_counts(collected).dom() == Set::new(
                    |p: Seq<usize>|
                        is_alt_path(a, g, k as nat, p) && origins@.take(i as int).contains(p[0]),
                ),
            decreases origins.len() - i,
        {
            let origin = origins[i];
            let mut start: Vec<usize> = Vec::new();
            start.push(origin);
            let ghost before = path_counts(collected).dom();
            proof {
                assert(origins@[i as int] == origin);
                assert(origins@.contains(origin));
                assert(a.contains(origin));
                assert(start@ =~= seq![origin]);
                assert(count_alt(a, start@) == 1) by {
                    assert(start@.drop_last() =~= Seq::<usize>::empty());
                    assert(count_alt(a, Seq::<usize>::empty()) == 0);
                    assert(start@.last() == origin);
                }
                assert(is_walk(g, start@));
                assert(start@.no_duplicates());
            }
            collect_from(k, alt, edges, start, 1, true, &mut collected);
            proof {
                let t0 = origins@.take(i as int);
                let t1 = origins@.take(i + 1);
                assert(t1 =~= t0.push(origin));
                assert forall|p: Seq<usize>|
                    is_alt_path(a, g, k as nat, p) && t1.contains(p[0]) implies #[trigger] path_counts(
                    collected,
                ).dom().contains(p) by {
                    let w = choose|w: int| 0 <= w < t1.len() && #[trigger] t1[w] == p[0];
                    if w < i {
                        assert(t0[w] == p[0]);
                    } else {
                        assert(p.take(1) =~= seq![origin]);
                    }
                }
                assert forall|p: Seq<usize>| #[trigger] path_counts(collected).dom().contains(p) implies is_alt_path(a, g, k as nat, p) && t1.contains(p[0]) by {
                    if before.contains(p) {
                        let w = choose|w: int| 0 <= w < t0.len() && #[trigger] t0[w] == p[0];
                        assert(t1[w] == p[0]);
                    } else {
                        assert(p.take(1) == seq![origin]);
                        assert(p[0] == p.take(1)[0]);
                        assert(t1[i as int] == origin);
                    }
                }
                assert(path_counts(collected).dom() =~= Set::new(
                    |p: Seq<usize>|
                        is_alt_path(a, g, k as nat, p) && t1.contains(p[0]),
                ));
            }
            i += 1;
        }
        proof {
            assert(origins@.take(i as int) =~= origins@);
            assert forall|p: Seq<usize>| is_alt_path(a, g, k as nat, p) implies origins@.contains(p[0]) by {
                assert(origins@.to_set().contains(p[0]));
            }
            assert(path_counts(collected).dom() =~= alt_path_set(a, g, k as nat));
        }
        AltPaths { k, alt: alt.duplicate(), lookup: collected }
    }

    /// Every alt-path of a grammar graph, given its alternation nodes and
    /// the children of its nodes (a later entry for a node replaces an
    /// earlier one), that passes between one and `k` alternations, each
    /// seen zero times so far.
    pub fn from_edges(k: usize, alternations: &Vec<usize>, edges: &Vec<(usize, Vec<usize>)>) -> (paths: AltPaths)
        requires
            k > 0,
        ensures
            paths@.k == k,
            paths@.alt == alternations@.to_set(),
            paths@.lookup.dom() == alt_path_set(
                alternations@.to_set(),
                edges_of(edge_pairs(edges@)),
                k as nat,
            ),
            all_zero(paths@.lookup),
    {
        let mut alt = NodeSet::new();
        let mut i: usize = 0;
        assert(alternations@.take(0).to_set() =~= Set::<usize>::empty());
        while i < alternations.len()
            invariant
                i <= alternations@.len(),
                node_set(alt) == alternations@.take(i as int).to_set(),
            decreases alternations.len() - i,
        {
            let _ = alt.insert(alternations[i]);
            proof {
                assert(alternations@.take(i + 1) =~= alternations@.take(i as int).push(alternations@[i as int]));
                alternations@.take(i as int).lemma_push_to_set_commute(alternations@[i as int]);
            }
            i += 1;
        }
        assert(alternations@.take(i as int) =~= alternations@);
        let mut map = EdgeMap::new();
        let ghost pairs = edge_pairs(edges@);
        let mut j: usize = 0;
        assert(edge_map(map) =~= edges_of(pairs.take(0)));
        while j < edges.len()
            invariant
                j <= edges@.len(),
                pairs == edge_pairs(edges@),
                edge_map(map) == edges_of(pairs.take(j as int)),
            decreases edges.len() - j,
        {
            let parent = edges[j].0;
            let children = edges[j].1.clone();
            let _ = map.insert(parent, children);
            proof {
                assert(pairs.take(j + 1).drop_last() =~= pairs.take(j as int));
                assert(pairs.take(j + 1).last() == pairs[j as int]);
                assert(pairs[j as int] == (edges@[j as int].0, edges@[j as int].1@));
            }
            j += 1;
        }
        assert(pairs.take(j as int) =~= pairs);
        proof {
            lemma_edges_of_finite(pairs);
        }
        Self::enumerate(k, &alt, &map)
    }

    /// `(uncovered, total)`: how many alt-paths have not been seen, and how
    /// many there are.
    pub fn alt_paths(&self) -> (r: (usize, usize))
        ensures
            r.0 == self@.lookup.dom().filter(unseen(self@.lookup)).len(),
            r.1 == self@.lookup.dom().len(),
    {
        let ghost m = self@.lookup;
        let paths = self.lookup.paths();
        let ghost ps = paths.deep_view();
        let mut uncovered: usize = 0;
        let mut i: usize = 0;
        assert(ps.take(0).filter(unseen(m)) =~= Seq::<Seq<usize>>::empty());
        while i < paths.len()
            invariant
                m == self@.lookup,
                ps == paths.deep_view(),
                ps.to_set() == m.dom(),
                i <= ps.len(),
                uncovered == ps.take(i as int).filter(unseen(m)).len(),
                uncovered <= i,
            decreases paths.len() - i,
        {
            assert(ps[i as int] == paths@[i as int]@);
            assert(ps.to_set().contains(ps[i as int]));
            let count = self.lookup.get(paths[i].as_slice());
            proof {
                assert(ps.take(i + 1) =~= ps.take(i as int).push(ps[i as int]));
                ps.take(i as int).lemma_filter_push(ps[i as int], unseen(m));
                assert(unseen(m)(ps[i as int]) == (m[ps[i as int]] == 0));
            }
            match count {
                Some(0) => {
                    uncovered = uncovered + 1;
                },
                _ => {},
            }
            i += 1;
        }
        proof {
            assert(ps.take(i as int) =~= ps);
            broadcast use vstd::seq_lib::group_filter_ensures;
            let f = ps.filter(unseen(m));
            assert(f.no_duplicates()) by {
                assert forall|x: int, y: int| 0 <= x < f.len() && 0 <= y < f.len() && x != y implies f[x] != f[y] by {
                    lemma_filter_no_duplicates(ps, unseen(m), x, y);
                }
            }
            f.unique_seq_to_set();
            ps.unique_seq_to_set();
            assert forall|x: Seq<usize>| f.to_set().contains(x) implies m.dom().filter(unseen(m)).contains(x) by {
                assert(f.contains(x));
                ps.lemma_filter_contains_rev(unseen(m), x);
                assert(ps.to_set().contains(x));
                let w = choose|w: int| 0 <= w < f.len() && f[w] == x;
                assert(unseen(m)(f[w]));
            }
            assert forall|x: Seq<usize>| m.dom().filter(unseen(m)).contains(x) implies f.to_set().contains(x) by {
                assert(ps.to_set().contains(x));
                assert(ps.contains(x));
                let w = choose|w: int| 0 <= w < ps.len() && ps[w] == x;
                ps.lemma_filter_contains(unseen(m), w);
            }
            assert(f.to_set() =~= m.dom().filter(unseen(m)));
        }
        (uncovered, paths.len())
    }

    /// The `k` of k-alt-path: how many alternations a path may pass.
    pub fn k(&self) -> (r: usize)
        ensures
            r == self@.k,
    {
        self.k
    }

    /// The node numbers treated as alternations, each once, in no
    /// particular order.
    pub fn alternations(&self) -> (r: Vec<usize>)
        ensures
            r@.to_set() == self@.alt,
            r@.no_duplicates(),
    {
        self.alt.to_vec()
    }

    /// Every alt-path with how often it has been seen, each path once, in no
    /// particular order.
    pub fn lookup(&self) -> (r: Vec<(Vec<usize>, usize)>)
        ensures
            r@.len() == self@.lookup.dom().len(),
            r@.map_values(|e: (Vec<usize>, usize)| e.0@).to_set() == self@.lookup.dom(),
            r@.map_values(|e: (Vec<usize>, usize)| e.0@).no_duplicates(),
            forall|i: int| 0 <= i < r@.len() ==> #[trigger] r@[i].1 == self@.lookup[r@[i].0@],
    {
        let paths = self.lookup.paths();
        let ghost ps = paths.deep_view();
        let ghost m = self@.lookup;
        let mut out: Vec<(Vec<usize>, usize)> = Vec::new();
        let mut i: usize = 0;
        while i < paths.len()
            invariant
                ps == paths.deep_view(),
                m == self@.lookup,
                ps.to_set() == m.dom(),
                ps.no_duplicates(),
                i <= ps.len(),
                out@.len() == i,
                out@.map_values(|e: (Vec<usize>, usize)| e.0@) == ps.take(i as int),
                forall|q: int| 0 <= q < out@.len() ==> #[trigger] out@[q].1 == m[out@[q].0@],
            decreases paths.len() - i,
        {
            assert(ps[i as int] == paths@[i as int]@);
            assert(ps.to_set().contains(ps[i as int]));
            let p = paths[i].clone();
            match self.lookup.get(p.as_slice()) {
                Some(count) => {
                    let ghost before = out@;
                    out.push((p, count));
                    proof {
                        assert(out@.map_values(|e: (Vec<usize>, usize)| e.0@) =~= ps.take(i + 1));
                        assert forall|q: int| 0 <= q < out@.len() implies #[trigger] out@[q].1 == m[out@[q].0@] by {
                            if q < i {
                                assert(out@[q] == before[q]);
                            }
                        }
                    }
                },
                None => {
                    assert(false);
                },
            }
            i += 1;
        }
        proof {
            assert(ps.take(i as int) =~= ps);
            ps.unique_seq_to_set();
        }
        out
    }

    /// Sets every count back to zero.
    pub fn clear(&mut self)
        ensures
            final(self)@.k == old(self)@.k,
            final(self)@.alt == old(self)@.alt,
            final(self)@.lookup.dom() == old(self)@.lookup.dom(),
            all_zero(final(self)@.lookup),
    {
        let paths = self.lookup.paths();
        let ghost ps = paths.deep_view();
        let ghost start = path_counts(self.lookup);
        let mut i: usize = 0;
        while i < paths.len()
            invariant
                ps == paths.deep_view(),
                ps.to_set() == start.dom(),
                i <= ps.len(),
                self.k == old(self).k,
                self.alt == old(self).alt,
                start == path_counts(old(self).lookup),
                path_counts(self.lookup).dom() == start.dom(),
                forall|p: Seq<usize>|
                    #[trigger] path_counts(self.lookup).dom().contains(p) && ps.take(i as int).contains(p)
                        ==> path_counts(self.lookup)[p] == 0,
            decreases paths.len() - i,
        {
            assert(ps[i as int] == paths@[i as int]@);
            assert(ps.to_set().contains(ps[i as int]));
            let ghost before = path_counts(self.lookup);
            self.lookup.insert(paths[i].as_slice(), 0);
            proof {
                assert(path_counts(self.lookup).dom() =~= start.dom());
                assert forall|p: Seq<usize>|
                    #[trigger] path_counts(self.lookup).dom().contains(p) && ps.take(i + 1).contains(p)
                        implies path_counts(self.lookup)[p] == 0 by {
                    if p != ps[i as int] {
                        let w = choose|w: int| 0 <= w < i + 1 && #[trigger] ps.take(i + 1)[w] == p;
                        assert(w != i);
                        assert(ps.take(i as int)[w] == p);
                    }
                }
            }
            i += 1;
        }
        assert(ps.take(i as int) =~= ps);
    }
}

proof fn lemma_filter_no_duplicates(s: Seq<Seq<usize>>, f: spec_fn(Seq<usize>) -> bool, x: int, y: int)
    requires
        s.no_duplicates(),
        0 <= x < s.filter(f).len(),
        0 <= y < s.filter(f).len(),
        x != y,
    ensures
        s.filter(f)[x] != s.filter(f)[y],
    decreases s.len(),
{
    reveal(Seq::filter);
    if s.len() > 0 {
        let p = s.drop_last();
        assert(p.no_duplicates());
        let fp = p.filter(f);
        if f(s.last()) {
            assert(s.filter(f) == fp.push(s.last()));
            if x < fp.len() && y < fp.len() {
                lemma_filter_no_duplicates(p, f, x, y);
            } else {
                let z = if x < fp.len() { x } else { y };
                assert(fp.contains(fp[z]));
                p.lemma_filter_contains_rev(f, fp[z]);
                assert(p.contains(fp[z]));
                let w = choose|w: int| 0 <= w < p.len() && p[w] == fp[z];
                assert(s[w] == p[w]);
            }
        } else {
            assert(s.filter(f) == fp);
            lemma_filter_no_duplicates(p, f, x, y);
        }
    }
}

// ---------------------------------------------------------------------------
// Counting the alt-paths of a tree
// ---------------------------------------------------------------------------
/// Whether reaching the last node of `stack`, the path from a tree's root to
/// a node, sees the alt-path `p`: `p` is a suffix of the stack that starts at
/// an alternation, the node before the last is an alternation, and `p`
/// passes at most `k` alternations before its last node.
pub open spec fn seen_at(alt: Set<usize>, k: nat, stack: Seq<usize>, p: Seq<usize>) -> bool {
    &&& stack.len() >= 2
    &&& alt.contains(stack[stack.len() - 2])
    &&& 2 <= p.len() <= stack.len()
    &&& p == stack.skip(stack.len() - p.len())
    &&& alt.contains(p[0])
    &&& count_alt(alt, p.drop_last()) <= k
}

/// The counts after reaching the last node of `stack`: every held path that
/// it sees counted once more (`up`) or once less.
pub open spec fn recounted(
    m: Map<Seq<usize>, usize>,
    alt: Set<usize>,
    k: nat,
    stack: Seq<usize>,
    up: bool,
) -> Map<Seq<usize>, usize> {
    Map::new(
        |p: Seq<usize>| m.dom().contains(p),
        |p: Seq<usize>|
            if seen_at(alt, k, stack, p) {
                if up {
                    (m[p] + 1) as usize
                } else {
                    (m[p] - 1) as usize
                }
            } else {
                m[p]
            },
    )
}

/// Whether every held path that `stack` sees can be counted once more
/// (`up`) or once less without leaving `usize`.
pub open spec fn recountable(m: Map<Seq<usize>, usize>, alt: Set<usize>, k: nat, stack: Seq<usize>, up: bool) -> bool {
    forall|p: Seq<usize>|
        #[trigger] m.dom().contains(p) && seen_at(alt, k, stack, p) ==> if up {
            m[p] < usize::MAX
        } else {
            m[p] > 0
        }
}

proof fn lemma_count_alt_concat(alt: Set<usize>, x: Seq<usize>, y: Seq<usize>)
    ensures
        count_alt(alt, x + y) == count_alt(alt, x) + count_alt(alt, y),
    decreases y.len(),
{
    if y.len() == 0 {
        assert(x + y =~= x);
    } else {
        assert((x + y).drop_last() =~= x + y.drop_last());
        lemma_count_alt_concat(alt, x, y.drop_last());
    }
}

/// The nodes of `s` from `from` on.
fn suffix(s: &Vec<usize>, from: usize) -> (out: Vec<usize>)
    requires
        from <= s@.len(),
    ensures
        out@ == s@.skip(from as int),
{
    let mut out: Vec<usize> = Vec::new();
    let mut i: usize = from;
    while i < s.len()
        invariant
            from <= i <= s@.len(),
            out@ == s@.subrange(from as int, i as int),
        decreases s.len() - i,
    {
        out.push(s[i]);
        i += 1;
        assert(out@ =~= s@.subrange(from as int, i as int));
    }
    assert(out@ =~= s@.skip(from as int));
    out
}

impl AltPaths {
    /// Counts once more (`up`) or once less every held alt-path that
    /// reaching the last node of `stack` sees.
    fn recount(&mut self, stack: &Vec<usize>, up: bool)
        requires
            recountable(old(self)@.lookup, old(self)@.alt, old(self)@.k, stack@, up),
        ensures
            final(self)@.k == old(self)@.k,
            final(self)@.alt == old(self)@.alt,
            final(self)@.lookup == recounted(old(self)@.lookup, old(self)@.alt, old(self)@.k, stack@, up),
    {
        let ghost m0 = self@.lookup;
        let ghost a = self@.alt;
        let ghost k = self@.k;
        let ghost st = stack@;
        let len = stack.len();
        if len < 2 || !self.alt.contains(stack[len - 2]) {
            proof {
                assert(path_counts(self.lookup) =~= recounted(m0, a, k, st, up));
            }
            return;
        }
        let mut countalt: usize = 0;
        let mut start: usize = len - 1;
        let mut stopped = false;
        while start > 0 && !stopped
            invariant
                m0 == path_counts(old(self).lookup),
                a == node_set(self.alt),
                k == self.k,
                self.k == old(self).k,
                self.alt == old(self).alt,
                st == stack@,
                len == st.len(),
                len >= 2,
                a.contains(st[len - 2]),
                recountable(m0, a, k, st, up),
                start <= len - 1,
                path_counts(self.lookup).dom() == m0.dom(),
                stopped ==> path_counts(self.lookup) == recounted(m0, a, k, st, up),
                !stopped ==> countalt == count_alt(a, st.subrange(start as int, len - 1)),
                !stopped ==> countalt <= k,
                !stopped ==> forall|p: Seq<usize>|
                    #[trigger] m0.dom().contains(p) ==> path_counts(self.lookup)[p] == if p.len()
                        <= len - start {
                        recounted(m0, a, k, st, up)[p]
                    } else {
                        m0[p]
                    },
            decreases start,
        {
            start -= 1;
            let ghost lo = start as int;
            proof {
                assert(st.subrange(lo, len - 1) =~= seq![st[lo]] + st.subrange(lo + 1, len - 1));
                lemma_count_alt_concat(a, seq![st[lo]], st.subrange(lo + 1, len - 1));
                assert(seq![st[lo]].drop_last() =~= Seq::<usize>::empty());
                assert(count_alt(a, Seq::<usize>::empty()) == 0);
                lemma_count_alt_len(a, st.subrange(lo + 1, len - 1));
            }
            let p = suffix(stack, start);
            proof {
                assert(p@.drop_last() =~= st.subrange(lo, len - 1));
                assert(p@[0] == st[lo]);
                assert(p@ == st.skip(len - p@.len()));
            }
            if self.alt.contains(stack[start]) {
                countalt += 1;
                if countalt > self.k {
                    proof {
                        assert forall|q: Seq<usize>| #[trigger] m0.dom().contains(q) implies path_counts(self.lookup)[q] == recounted(m0, a, k, st, up)[q] by {
                            if q.len() > len - start - 1 && seen_at(a, k, st, q) {
                                let s2 = len - q.len();
                                assert(st.subrange(s2, len - 1) =~= st.subrange(s2, lo) + st.subrange(lo, len - 1));
                                lemma_count_alt_concat(a, st.subrange(s2, lo), st.subrange(lo, len - 1));
                                assert(q.drop_last() =~= st.subrange(s2, len - 1));
                            }
                        }
                        assert(path_counts(self.lookup) =~= recounted(m0, a, k, st, up));
                    }
                    stopped = true;
                } else {
                    match self.lookup.get(p.as_slice()) {
                    Some(c) => {
                        proof {
                            assert(seen_at(a, k, st, p@));
                            assert(path_counts(self.lookup)[p@] == m0[p@]);
                        }
                        let updated = if up {
                            c + 1
                        } else {
                            c - 1
                        };
                        self.lookup.insert(p.as_slice(), updated);
                    },
                    None => {},
                    }
                }
            } else {
                proof {
                    assert(!seen_at(a, k, st, p@));
                }
            }
            proof {
                assert(path_counts(self.lookup).dom() =~= m0.dom());
                assert forall|q: Seq<usize>| !stopped && #[trigger] m0.dom().contains(q) implies path_counts(self.lookup)[q] == if q.len() <= len - start {
                    recounted(m0, a, k, st, up)[q]
                } else {
                    m0[q]
                } by {
                    if q.len() == len - start && q != p@ {
                        assert(!seen_at(a, k, st, q));
                    }
                }
            }
        }
        proof {
            if !stopped {
                assert forall|q: Seq<usize>| #[trigger] m0.dom().contains(q) implies path_counts(self.lookup)[q] == recounted(m0, a, k, st, up)[q] by {
                    if q.len() > len {
                        assert(!seen_at(a, k, st, q));
                    }
                }
                assert(path_counts(self.lookup) =~= recounted(m0, a, k, st, up));
            }
        }
    }
}

/// Updates the counts of an [`AltPaths`] while a generated tree is walked:
/// `INSERT` counts every alt-path seen once more, otherwise once less.
pub struct AltPathUpdate<'a, const INSERT: bool> {
    altpaths: &'a mut AltPaths,
    stack: Vec<usize>,
}

impl<'a, const INSERT: bool> AltPathUpdate<'a, INSERT> {
    /// The counts being updated.
    pub closed spec fn counts(&self) -> AltPathsView {
        self.altpaths@
    }

    /// The node numbers from the root to the node being visited.
    pub closed spec fn path(&self) -> Seq<usize> {
        self.stack@
    }

    fn new(altpaths: &'a mut AltPaths) -> (u: Self)
        ensures
            u.counts() == old(altpaths)@,
            u.path() == Seq::<usize>::empty(),
    {
        AltPathUpdate { altpaths, stack: Vec::new() }
    }

    /// The [`AltPaths`] being updated.
    pub fn altpaths(&self) -> (r: &AltPaths)
        ensures
            r@ == self.counts(),
    {
        &*self.altpaths
    }

    /// Enters a node of the tree with number `discriminant`, and counts the
    /// alt-paths that reaching it sees.
    pub fn enter(&mut self, discriminant: usize)
        requires
            recountable(
                old(self).counts().lookup,
                old(self).counts().alt,
                old(self).counts().k,
                old(self).path().push(discriminant),
                INSERT,
            ),
        ensures
            final(self).path() == old(self).path().push(discriminant),
            final(self).counts() == (AltPathsView {
                lookup: recounted(
                    old(self).counts().lookup,
                    old(self).counts().alt,
                    old(self).counts().k,
                    old(self).path().push(discriminant),
                    INSERT,
                ),
                ..old(self).counts()
            }),
    {
        self.stack.push(discriminant);
        self.altpaths.recount(&self.stack, INSERT);
    }

    /// Leaves the node entered last.
    pub fn leave(&mut self)
        ensures
            final(self).path() == if old(self).path().len() > 0 {
                old(self).path().drop_last()
            } else {
                old(self).path()
            },
            final(self).counts() == old(self).counts(),
    {
        let _ = self.stack.pop();
    }
}

impl<'a> AltPathUpdate<'a, true> {
    /// Counts every alt-path seen once more.
    pub fn inserting(altpaths: &'a mut AltPaths) -> (u: Self)
        ensures
            u.counts() == old(altpaths)@,
            u.path() == Seq::<usize>::empty(),
    {
        Self::new(altpaths)
    }
}

impl<'a> AltPathUpdate<'a, false> {
    /// Counts every alt-path seen once less.
    pub fn removing(altpaths: &'a mut AltPaths) -> (u: Self)
        ensures
            u.counts() == old(altpaths)@,
            u.path() == Seq::<usize>::empty(),
    {
        Self::new(altpaths)
    }
}

/// What to do with every alt-path that a walk over a tree sees, together
/// with how often it has been seen so far. Calls come in no promised order.
pub trait AltPathVisitor {
    /// What the visitor turns into after a whole walk.
    type Value;

    /// What the visitor stops the walk with.
    type Break;

    /// What the visitor fails with.
    type Error;

    /// Called with the count of an alt-path seen, and the path.
    fn visit_path(&mut self, count: usize, path: &[usize]) -> Result<ControlFlow<Self::Break>, Self::Error>;

    /// The value accrued.
    fn value(self) -> Self::Value;
}

/// Hands every held alt-path that a walk over a tree sees to an
/// [`AltPathVisitor`].
pub struct AltPathVisit<'a, V> {
    altpaths: &'a AltPaths,
    stack: Vec<usize>,
    and_then: V,
    calls: Ghost<Seq<(usize, Seq<usize>)>>,
}

/// The calls that reaching the last node of `stack` makes to a visitor,
/// among the suffixes of `stack` of at most `n` nodes: each held path that
/// it sees, with its count (listed shortest first; the contracts below take
/// them in no order).
pub open spec fn visit_calls(
    m: Map<Seq<usize>, usize>,
    alt: Set<usize>,
    k: nat,
    stack: Seq<usize>,
    n: nat,
) -> Seq<(usize, Seq<usize>)>
    decreases n,
{
    if n == 0 {
        Seq::empty()
    } else {
        let prev = visit_calls(m, alt, k, stack, (n - 1) as nat);
        let p = stack.skip(stack.len() - n);
        if n <= stack.len() && m.dom().contains(p) && seen_at(alt, k, stack, p) {
            prev.push((m[p], p))
        } else {
            prev
        }
    }
}

/// Whether the calls went from `before` to `after` by the calls `added`,
/// in some order.
pub open spec fn calls_added(
    before: Seq<(usize, Seq<usize>)>,
    after: Seq<(usize, Seq<usize>)>,
    added: Seq<(usize, Seq<usize>)>,
) -> bool {
    &&& after.len() == before.len() + added.len()
    &&& after.take(before.len() as int) == before
    &&& after.skip(before.len() as int).to_multiset() == added.to_multiset()
}

proof fn lemma_calls_added(before: Seq<(usize, Seq<usize>)>, added: Seq<(usize, Seq<usize>)>)
    ensures
        calls_added(before, before + added, added),
{
    assert((before + added).take(before.len() as int) =~= before);
    assert((before + added).skip(before.len() as int) =~= added);
}

/// Whether a walk that stopped early made the calls from `before` to
/// `after`: the calls for the suffixes of `stack` up to some length `n`,
/// in some order, among them one for the suffix of `n` nodes.
pub open spec fn stopped_calls(
    m: Map<Seq<usize>, usize>,
    alt: Set<usize>,
    k: nat,
    stack: Seq<usize>,
    before: Seq<(usize, Seq<usize>)>,
    after: Seq<(usize, Seq<usize>)>,
) -> bool {
    exists|n: nat|
        2 <= n <= stack.len() && #[trigger] visit_calls(m, alt, k, stack, n).len() == visit_calls(
            m,
            alt,
            k,
            stack,
            (n - 1) as nat,
        ).len() + 1 && calls_added(before, after, visit_calls(m, alt, k, stack, n))
}

/// Once the suffix of `n` nodes passes more than `k` alternations before
/// its last node, no longer suffix is seen.
proof fn lemma_visit_calls_stop(
    m: Map<Seq<usize>, usize>,
    alt: Set<usize>,
    k: nat,
    stack: Seq<usize>,
    n: nat,
    n2: nat,
)
    requires
        1 <= n <= n2 <= stack.len(),
        count_alt(alt, stack.subrange(stack.len() - n, stack.len() - 1)) > k,
    ensures
        visit_calls(m, alt, k, stack, n2) == visit_calls(m, alt, k, stack, n),
    decreases n2,
{
    if n2 > n {
        lemma_visit_calls_stop(m, alt, k, stack, n, (n2 - 1) as nat);
        let len = stack.len();
        let p = stack.skip(len - n2);
        let lo = len - n2;
        let mid = len - n;
        assert(p.drop_last() =~= stack.subrange(lo, mid) + stack.subrange(mid, len - 1));
        lemma_count_alt_concat(alt, stack.subrange(lo, mid), stack.subrange(mid, len - 1));
    }
}

/// No suffix is seen when the node before the last is no alternation.
proof fn lemma_visit_calls_none(
    m: Map<Seq<usize>, usize>,
    alt: Set<usize>,
    k: nat,
    stack: Seq<usize>,
    n: nat,
)
    requires
        stack.len() < 2 || !alt.contains(stack[stack.len() - 2]),
    ensures
        visit_calls(m, alt, k, stack, n) == Seq::<(usize, Seq<usize>)>::empty(),
    decreases n,
{
    if n > 0 {
        lemma_visit_calls_none(m, alt, k, stack, (n - 1) as nat);
    }
}

impl<'a, V: AltPathVisitor> AltPathVisit<'a, V> {
    /// The counts read.
    pub closed spec fn counts(&self) -> AltPathsView {
        self.altpaths@
    }

    /// The node numbers from the root to the node being visited.
    pub closed spec fn path(&self) -> Seq<usize> {
        self.stack@
    }

    /// Every call made to the visitor so far, as made: the count and the
    /// path handed to `visit_path`.
    pub closed spec fn calls(&self) -> Seq<(usize, Seq<usize>)> {
        self.calls@
    }

    /// A walk that calls `and_then` for every held alt-path it sees.
    pub fn new(altpaths: &'a AltPaths, and_then: V) -> (v: Self)
        ensures
            v.counts() == altpaths@,
            v.path() == Seq::<usize>::empty(),
            v.calls() == Seq::<(usize, Seq<usize>)>::empty(),
    {
        AltPathVisit { altpaths, stack: Vec::new(), and_then, calls: Ghost(Seq::empty()) }
    }

    /// What the visitor has accrued.
    pub fn value(self) -> V::Value {
        self.and_then.value()
    }

    /// Enters a node of the tree with number `discriminant`, and calls the
    /// visitor with every held alt-path that reaching it sees, in no
    /// promised order, until it breaks or fails.
    pub fn enter(&mut self, discriminant: usize) -> (r: Result<ControlFlow<V::Break>, V::Error>)
        ensures
            final(self).path() == old(self).path().push(discriminant),
            final(self).counts() == old(self).counts(),
            (forall|p: Seq<usize>|
                #[trigger] old(self).counts().lookup.dom().contains(p) ==> !seen_at(
                    old(self).counts().alt,
                    old(self).counts().k,
                    old(self).path().push(discriminant),
                    p,
                )) ==> r matches Ok(ControlFlow::Continue(())),
            r matches Ok(ControlFlow::Continue(())) ==> calls_added(
                old(self).calls(),
                final(self).calls(),
                visit_calls(
                    old(self).counts().lookup,
                    old(self).counts().alt,
                    old(self).counts().k,
                    final(self).path(),
                    final(self).path().len(),
                ),
            ),
            !(r matches Ok(ControlFlow::Continue(()))) ==> stopped_calls(
                old(self).counts().lookup,
                old(self).counts().alt,
                old(self).counts().k,
                final(self).path(),
                old(self).calls(),
                final(self).calls(),
            ),
    {
        self.stack.push(discriminant);
        let ghost a = self.altpaths@.alt;
        let ghost k = self.altpaths@.k;
        let ghost m = self.altpaths@.lookup;
        let ghost st = self.stack@;
        let len = self.stack.len();
        if len < 2 || !self.altpaths.alt.contains(self.stack[len - 2]) {
            proof {
                lemma_visit_calls_none(m, a, k, st, st.len());
                assert(self.calls@ =~= old(self).calls@ + visit_calls(m, a, k, st, st.len()));
                lemma_calls_added(old(self).calls@, visit_calls(m, a, k, st, st.len()));
            }
            return Ok(ControlFlow::Continue(()));
        }
        assert(visit_calls(m, a, k, st, 0) =~= Seq::<(usize, Seq<usize>)>::empty());
        assert(st.skip(st.len() - 1).len() == 1);
        assert(visit_calls(m, a, k, st, 1) =~= Seq::<(usize, Seq<usize>)>::empty());
        assert(self.calls@ =~= old(self).calls@ + visit_calls(m, a, k, st, 1));
        let mut countalt: usize = 0;
        let mut start: usize = len - 1;
        let mut stopped = false;
        while start > 0 && !stopped
            invariant
                a == self.altpaths@.alt,
                k == self.altpaths@.k,
                m == self.altpaths@.lookup,
                st == self.stack@,
                st == old(self).stack@.push(discriminant),
                self.altpaths@ == old(self).altpaths@,
                m == old(self).altpaths@.lookup,
                len == st.len(),
                len >= 2,
                a.contains(st[len - 2]),
                start <= len - 1,
                !stopped ==> countalt == count_alt(a, st.subrange(start as int, len - 1)),
                !stopped ==> countalt <= k,
                stopped ==> count_alt(a, st.subrange(start as int, len - 1)) > k,
                self.calls@ == old(self).calls@ + visit_calls(m, a, k, st, (len - start) as nat),
            decreases start,
        {
            start -= 1;
            let ghost lo = start as int;
            let ghost n = (len - start) as nat;
            proof {
                assert(st.skip(st.len() - n) == st.skip(lo));
                assert(st.skip(lo).drop_last() =~= st.subrange(lo, len - 1));
                assert(st.subrange(lo, len - 1) =~= seq![st[lo]] + st.subrange(lo + 1, len - 1));
                lemma_count_alt_concat(a, seq![st[lo]], st.subrange(lo + 1, len - 1));
                assert(seq![st[lo]].drop_last() =~= Seq::<usize>::empty());
                assert(count_alt(a, Seq::<usize>::empty()) == 0);
                lemma_count_alt_len(a, st.subrange(lo + 1, len - 1));
            }
            if self.altpaths.alt.contains(self.stack[start]) {
                countalt += 1;
                if countalt > self.altpaths.k {
                    stopped = true;
                    assert(visit_calls(m, a, k, st, n) == visit_calls(m, a, k, st, (n - 1) as nat));
                } else {
                    let p = suffix(&self.stack, start);
                    match self.altpaths.lookup.get(p.as_slice()) {
                        Some(count) => {
                            proof {
                                assert(p@.drop_last() =~= st.subrange(lo, len - 1));
                                assert(p@ == st.skip(len - p@.len()));
                                assert(seen_at(a, k, st, p@));
                                assert(old(self).counts().lookup.dom().contains(p@));
                            }
                            self.calls = Ghost(self.calls@.push((count, p@)));
                            proof {
                                assert(visit_calls(m, a, k, st, n) == visit_calls(m, a, k, st, (n - 1) as nat).push((count, p@)));
                                assert(self.calls@ =~= old(self).calls@ + visit_calls(m, a, k, st, n));
                            }
                            match self.and_then.visit_path(count, p.as_slice()) {
                                Ok(ControlFlow::Continue(())) => {},
                                Ok(ControlFlow::Break(b)) => {
                                    assert(2 <= n <= st.len() && visit_calls(m, a, k, st, n) == visit_calls(m, a, k, st, (n - 1) as nat).push(self.calls@.last()) && self.calls@ == old(self).calls@ + visit_calls(m, a, k, st, n));
                                    proof {
                                        lemma_calls_added(old(self).calls@, visit_calls(m, a, k, st, n));
                                    }
                                    assert(stopped_calls(m, a, k, st, old(self).calls@, self.calls@));
                                    return Ok(ControlFlow::Break(b));
                                },
                                Err(e) => {
                                    assert(2 <= n <= st.len() && visit_calls(m, a, k, st, n) == visit_calls(m, a, k, st, (n - 1) as nat).push(self.calls@.last()) && self.calls@ == old(self).calls@ + visit_calls(m, a, k, st, n));
                                    proof {
                                        lemma_calls_added(old(self).calls@, visit_calls(m, a, k, st, n));
                                    }
                                    assert(stopped_calls(m, a, k, st, old(self).calls@, self.calls@));
                                    return Err(e);
                                },
                            }
                        },
                        None => {
                            assert(!old(self).counts().lookup.dom().contains(p@));
                            assert(p@ == st.skip(lo));
                            assert(visit_calls(m, a, k, st, n) == visit_calls(m, a, k, st, (n - 1) as nat));
                        },
                    }
                }
            } else {
                assert(visit_calls(m, a, k, st, n) == visit_calls(m, a, k, st, (n - 1) as nat));
            }
        }
        proof {
            if stopped {
                lemma_visit_calls_stop(m, a, k, st, (len - start) as nat, len as nat);
            } else {
                assert(start == 0);
            }
            lemma_calls_added(old(self).calls@, visit_calls(m, a, k, st, len as nat));
        }
        Ok(ControlFlow::Continue(()))
    }

    /// Leaves the node entered last.
    pub fn leave(&mut self)
        ensures
            final(self).path() == if old(self).path().len() > 0 {
                old(self).path().drop_last()
            } else {
                old(self).path()
            },
            final(self).counts() == old(self).counts(),
            final(self).calls() == old(self).calls(),
    {
        let _ = self.stack.pop();
    }
}

// ---------------------------------------------------------------------------
// Alt-paths of a grammar graph
// ---------------------------------------------------------------------------
/// A node of a grammar graph, as alt-path coverage reads it.
pub struct GrammarNode {
    /// The number that generated trees give this kind of node.
    pub discriminant: usize,
    /// Whether the node is an alternative: a production body, with one
    /// branch or more.
    pub alternative: bool,
    /// The positions, in the graph, of the node's children.
    pub children: Vec<usize>,
}

/// Whether the node at `i` is an alternation: an alternative, whatever its
/// number of branches. Every production body is one, so every cycle of the
/// graph passes through an alternation.
pub open spec fn is_alternation(nodes: Seq<GrammarNode>, i: usize) -> bool {
    nodes[i as int].alternative
}

/// Whether `c` is a child of the node at `p`.
pub open spec fn is_child(nodes: Seq<GrammarNode>, p: usize, c: usize) -> bool {
    p < nodes.len() && nodes[p as int].children@.contains(c)
}

/// Whether every child position names a node of the graph.
pub open spec fn children_in_graph(nodes: Seq<GrammarNode>) -> bool {
    forall|p: int, j: int|
        0 <= p < nodes.len() && 0 <= j < nodes[p].children@.len() ==> #[trigger] nodes[p].children@[j]
            < nodes.len()
}

/// The nodes reached from `start` in at most `n` steps.
pub open spec fn reach(nodes: Seq<GrammarNode>, start: usize, n: nat) -> Set<usize>
    decreases n,
{
    if n == 0 {
        set![start]
    } else {
        let before = reach(nodes, start, (n - 1) as nat);
        before.union(Set::new(|c: usize| exists|p: usize| before.contains(p) && #[trigger] is_child(nodes, p, c)))
    }
}

/// Whether the node at `i` is reachable from `start`.
pub open spec fn reachable(nodes: Seq<GrammarNode>, start: usize, i: usize) -> bool {
    exists|n: nat| #[trigger] reach(nodes, start, n).contains(i)
}

/// Whether the reachable nodes have distinct discriminants.
pub open spec fn distinct_discriminants(nodes: Seq<GrammarNode>, start: usize) -> bool {
    forall|i: usize, j: usize|
        reachable(nodes, start, i) && reachable(nodes, start, j) && i != j ==> #[trigger] nodes[i as int].discriminant
            != #[trigger] nodes[j as int].discriminant
}

/// The discriminants of the children of the node at `i`.
pub open spec fn child_discriminants(nodes: Seq<GrammarNode>, i: usize) -> Seq<usize> {
    nodes[i as int].children@.map_values(|c: usize| nodes[c as int].discriminant)
}

/// The discriminants of the reachable alternatives.
pub open spec fn grammar_alternations(nodes: Seq<GrammarNode>, start: usize) -> Set<usize> {
    Set::new(
        |d: usize|
            exists|i: usize|
                reachable(nodes, start, i) && is_alternation(nodes, i) && #[trigger] nodes[i as int].discriminant == d,
    )
}

/// The edges between discriminants: for each reachable node, the
/// discriminants of its children.
pub open spec fn grammar_edges(nodes: Seq<GrammarNode>, start: usize) -> Map<usize, Seq<usize>> {
    Map::new(
        |d: usize| exists|i: usize| reachable(nodes, start, i) && #[trigger] nodes[i as int].discriminant == d,
        |d: usize|
            child_discriminants(
                nodes,
                choose|i: usize| reachable(nodes, start, i) && #[trigger] nodes[i as int].discriminant == d,
            ),
    )
}

/// Every node that a set holding `start` and closed under children holds
/// is no fewer than the reachable ones.
proof fn lemma_reach_closed(nodes: Seq<GrammarNode>, start: usize, s: Set<usize>, n: nat)
    requires
        s.contains(start),
        forall|p: usize, c: usize| s.contains(p) && #[trigger] is_child(nodes, p, c) ==> s.contains(c),
    ensures
        reach(nodes, start, n).subset_of(s),
    decreases n,
{
    if n > 0 {
        lemma_reach_closed(nodes, start, s, (n - 1) as nat);
    }
}

/// A child of a reachable node is reachable.
proof fn lemma_reach_child(nodes: Seq<GrammarNode>, start: usize, p: usize, c: usize)
    requires
        reachable(nodes, start, p),
        is_child(nodes, p, c),
    ensures
        reachable(nodes, start, c),
{
    let n = choose|n: nat| #[trigger] reach(nodes, start, n).contains(p);
    assert(reach(nodes, start, n + 1).contains(c));
}

/// The reachable nodes lie in the graph.
proof fn lemma_reach_in_graph(nodes: Seq<GrammarNode>, start: usize, n: nat)
    requires
        start < nodes.len(),
        children_in_graph(nodes),
    ensures
        forall|i: usize| #[trigger] reach(nodes, start, n).contains(i) ==> i < nodes.len(),
    decreases n,
{
    if n > 0 {
        lemma_reach_in_graph(nodes, start, (n - 1) as nat);
        assert forall|i: usize| #[trigger] reach(nodes, start, n).contains(i) implies i < nodes.len() by {
            if !reach(nodes, start, (n - 1) as nat).contains(i) {
                let p = choose|p: usize| reach(nodes, start, (n - 1) as nat).contains(p) && #[trigger] is_child(nodes, p, i);
                let j = choose|j: int| 0 <= j < nodes[p as int].children@.len() && nodes[p as int].children@[j] == i;
                assert(nodes[p as int].children@[j] < nodes.len());
            }
        }
    }
}

spec fn below(n: usize) -> Set<usize> {
    Set::new(|x: usize| x < n)
}

proof fn lemma_below(n: usize)
    ensures
        below(n).finite(),
        below(n).len() == n,
    decreases n,
{
    if n == 0 {
        assert(below(0) =~= Set::<usize>::empty());
    } else {
        lemma_below((n - 1) as usize);
        assert(below(n) =~= below((n - 1) as usize).insert((n - 1) as usize));
    }
}

/// The edges of pairs whose parents are distinct map each parent to its
/// children.
proof fn lemma_edges_of_distinct(pairs: Seq<(usize, Seq<usize>)>)
    requires
        forall|a: int, b: int| 0 <= a < b < pairs.len() ==> pairs[a].0 != pairs[b].0,
    ensures
        forall|a: int| 0 <= a < pairs.len() ==> #[trigger] edges_of(pairs).dom().contains(pairs[a].0)
            && edges_of(pairs)[pairs[a].0] == pairs[a].1,
        forall|d: usize| #[trigger] edges_of(pairs).dom().contains(d) ==> exists|a: int| 0 <= a < pairs.len() && pairs[a].0 == d,
    decreases pairs.len(),
{
    if pairs.len() > 0 {
        let p0 = pairs.drop_last();
        lemma_edges_of_distinct(p0);
        let last = pairs.len() - 1;
        assert(edges_of(pairs) == edges_of(p0).insert(pairs[last].0, pairs[last].1));
        assert forall|a: int| 0 <= a < pairs.len() implies #[trigger] edges_of(pairs).dom().contains(pairs[a].0)
            && edges_of(pairs)[pairs[a].0] == pairs[a].1 by {
            if a < last {
                assert(p0[a] == pairs[a]);
                assert(edges_of(p0).dom().contains(p0[a].0));
                assert(pairs[a].0 != pairs[last].0);
            }
        }
        assert forall|d: usize| #[trigger] edges_of(pairs).dom().contains(d) implies exists|a: int| 0 <= a < pairs.len() && pairs[a].0 == d by {
            if d != pairs[last].0 {
                assert(edges_of(p0).dom().contains(d));
                let a = choose|a: int| 0 <= a < p0.len() && p0[a].0 == d;
                assert(pairs[a] == p0[a]);
            } else {
                assert(pairs[last].0 == d);
            }
        }
    }
}

impl AltPaths {
    /// Every alt-path of a grammar graph, each seen zero times so far: the
    /// nodes reachable from `start` give the edges, from each node's
    /// discriminant to its children's, and the reachable alternatives are
    /// the alternations.
    pub fn from_grammar(k: usize, nodes: &Vec<GrammarNode>, start: usize) -> (paths: AltPaths)
        requires
            k > 0,
            start < nodes@.len(),
            children_in_graph(nodes@),
            distinct_discriminants(nodes@, start),
        ensures
            paths@.k == k,
            paths@.alt == grammar_alternations(nodes@, start),
            paths@.lookup.dom() == alt_path_set(
                grammar_alternations(nodes@, start),
                grammar_edges(nodes@, start),
                k as nat,
            ),
            all_zero(paths@.lookup),
    {
        let ghost g = nodes@;
        let n = nodes.len();
        let mut visited: Vec<bool> = Vec::new();
        let mut x: usize = 0;
        while x < n
            invariant
                x <= n,
                visited@.len() == x,
                forall|y: int| 0 <= y < x ==> !#[trigger] visited@[y],
            decreases n - x,
        {
            visited.push(false);
            x += 1;
        }
        visited.set(start, true);
        let mut order: Vec<usize> = Vec::new();
        order.push(start);
        proof {
            assert(reach(g, start, 0).contains(start));
            assert forall|y: usize| y < n implies (visited@[y as int] <==> #[trigger] order@.contains(y)) by {
                if order@.contains(y) {
                    let w = choose|w: int| 0 <= w < order@.len() && order@[w] == y;
                }
                if y == start {
                    assert(order@[0] == y);
                }
            }
        }
        let mut idx: usize = 0;
        while idx < order.len()
            invariant
                g == nodes@,
                n == g.len(),
                start < n,
                children_in_graph(g),
                visited@.len() == n,
                order@.len() >= 1,
                order@[0] == start,
                idx <= order@.len(),
                order@.no_duplicates(),
                forall|j: int| 0 <= j < order@.len() ==> #[trigger] order@[j] < n,
                forall|y: usize| y < n ==> (visited@[y as int] <==> #[trigger] order@.contains(y)),
                forall|j: int| 0 <= j < order@.len() ==> reachable(g, start, #[trigger] order@[j]),
                forall|j: int, c: usize|
                    0 <= j < idx && #[trigger] is_child(g, order@[j], c) ==> order@.contains(c),
            decreases n - idx,
        {
            proof {
                lemma_below(n);
                assert forall|j: int| 0 <= j < order@.len() implies below(n).contains(#[trigger] order@[j]) by {}
                lemma_distinct_bound(order@, below(n));
            }
            let p = order[idx];
            let ghost before = order@;
            let mut m: usize = 0;
            while m < nodes[p].children.len()
                invariant
                    g == nodes@,
                    n == g.len(),
                    start < n,
                    children_in_graph(g),
                    p < n,
                    p == order@[idx as int],
                    visited@.len() == n,
                    order@.len() >= 1,
                    order@[0] == start,
                    idx < order@.len(),
                    before.len() <= order@.len(),
                    order@.take(before.len() as int) == before,
                    order@.no_duplicates(),
                    forall|j: int| 0 <= j < order@.len() ==> #[trigger] order@[j] < n,
                    forall|y: usize| y < n ==> (visited@[y as int] <==> #[trigger] order@.contains(y)),
                    forall|j: int| 0 <= j < order@.len() ==> reachable(g, start, #[trigger] order@[j]),
                    forall|j: int, c: usize|
                        0 <= j < idx && #[trigger] is_child(g, order@[j], c) ==> order@.contains(c),
                    forall|q: int| 0 <= q < m ==> order@.contains(#[trigger] g[p as int].children@[q]),
                    m <= g[p as int].children@.len(),
                decreases g[p as int].children@.len() - m,
            {
                let c = nodes[p].children[m];
                assert(g[p as int].children@[m as int] == c);
                assert(c < n);
                if !visited[c] {
                    let ghost prev = order@;
                    visited.set(c, true);
                    order.push(c);
                    proof {
                        assert(is_child(g, p, c));
                        assert(reachable(g, start, order@[idx as int]));
                        lemma_reach_child(g, start, p, c);
                        lemma_push_distinct(prev, c);
                        assert forall|y: usize| y < n implies (visited@[y as int] <==> #[trigger] order@.contains(y)) by {
                            if y != c {
                                if order@.contains(y) {
                                    let w = choose|w: int| 0 <= w < order@.len() && order@[w] == y;
                                    assert(prev[w] == y);
                                }
                                if prev.contains(y) {
                                    let w = choose|w: int| 0 <= w < prev.len() && prev[w] == y;
                                    assert(order@[w] == y);
                                }
                            } else {
                                assert(order@[prev.len() as int] == c);
                            }
                        }
                        assert forall|j: int| 0 <= j < order@.len() implies reachable(g, start, #[trigger] order@[j]) by {
                            if j < prev.len() {
                                assert(order@[j] == prev[j]);
                            }
                        }
                        assert(order@.take(before.len() as int) =~= prev.take(before.len() as int));
                        assert forall|z: usize| prev.contains(z) implies order@.contains(z) by {
                            let w = choose|w: int| 0 <= w < prev.len() && prev[w] == z;
                            assert(order@[w] == z);
                        }
                    }
                } else {
                    assert(order@.contains(c));
                }
                m += 1;
            }
            proof {
                assert forall|j: int, c: usize| 0 <= j < idx + 1 && #[trigger] is_child(g, order@[j], c) implies order@.contains(c) by {
                    if j == idx {
                        let q = choose|q: int| 0 <= q < g[p as int].children@.len() && g[p as int].children@[q] == c;
                    }
                }
            }
            idx += 1;
        }
        // Every reachable node has been visited.
        proof {
            assert forall|i: usize| reachable(g, start, i) <==> order@.contains(i) by {
                if reachable(g, start, i) {
                    let r = choose|r: nat| #[trigger] reach(g, start, r).contains(i);
                    assert(order@[0] == start);
                    lemma_reach_closed(g, start, order@.to_set(), r);
                }
                if order@.contains(i) {
                    let w = choose|w: int| 0 <= w < order@.len() && order@[w] == i;
                }
            }
        }
        let mut alternations: Vec<usize> = Vec::new();
        let mut edges: Vec<(usize, Vec<usize>)> = Vec::new();
        let mut j: usize = 0;
        while j < order.len()
            invariant
                g == nodes@,
                n == g.len(),
                children_in_graph(g),
                distinct_discriminants(g, start),
                forall|i: int| 0 <= i < order@.len() ==> #[trigger] order@[i] < n,
                forall|i: usize| reachable(g, start, i) <==> #[trigger] order@.contains(i),
                order@.no_duplicates(),
                j <= order@.len(),
                edges@.len() == j,
                forall|a: int| 0 <= a < j ==> #[trigger] edges@[a].0 == g[order@[a] as int].discriminant
                    && edges@[a].1@ == child_discriminants(g, order@[a]),
                alternations@.to_set() == Set::new(
                    |d: usize|
                        exists|a: int| 0 <= a < j && is_alternation(g, order@[a]) && #[trigger] g[order@[a] as int].discriminant == d,
                ),
            decreases order.len() - j,
        {
            let p = order[j];
            let d = nodes[p].discriminant;
            let mut kids: Vec<usize> = Vec::new();
            let mut m: usize = 0;
            while m < nodes[p].children.len()
                invariant
                    g == nodes@,
                    n == g.len(),
                    children_in_graph(g),
                    p < n,
                    m <= g[p as int].children@.len(),
                    kids@ == child_discriminants(g, p).take(m as int),
                decreases g[p as int].children@.len() - m,
            {
                let c = nodes[p].children[m];
                assert(c < n);
                kids.push(nodes[c].discriminant);
                m += 1;
                assert(kids@ =~= child_discriminants(g, p).take(m as int));
            }
            assert(kids@ =~= child_discriminants(g, p));
            let ghost before = alternations@;
            let ghost want = Set::new(
                |d2: usize|
                    exists|a: int| 0 <= a < j + 1 && is_alternation(g, order@[a]) && #[trigger] g[order@[a] as int].discriminant == d2,
            );
            if nodes[p].alternative {
                alternations.push(d);
                proof {
                    before.lemma_push_to_set_commute(d);
                    assert forall|d2: usize| want.contains(d2) <==> alternations@.to_set().contains(d2) by {
                        if want.contains(d2) {
                            let a = choose|a: int| 0 <= a < j + 1 && is_alternation(g, order@[a]) && #[trigger] g[order@[a] as int].discriminant == d2;
                            if a < j {
                                assert(before.to_set().contains(d2));
                            }
                        }
                        if before.to_set().contains(d2) {
                            let a = choose|a: int| 0 <= a < j && is_alternation(g, order@[a]) && #[trigger] g[order@[a] as int].discriminant == d2;
                            assert(want.contains(d2));
                        }
                        if d2 == d {
                            assert(g[order@[j as int] as int].discriminant == d2);
                        }
                    }
                    assert(alternations@.to_set() =~= want);
                }
            } else {
                proof {
                    assert forall|d2: usize| want.contains(d2) implies before.to_set().contains(d2) by {
                        let a = choose|a: int| 0 <= a < j + 1 && is_alternation(g, order@[a]) && #[trigger] g[order@[a] as int].discriminant == d2;
                        assert(a != j);
                        assert(0 <= a < j && is_alternation(g, order@[a]) && g[order@[a] as int].discriminant == d2);
                    }
                    assert forall|d2: usize| before.to_set().contains(d2) implies want.contains(d2) by {
                        let a = choose|a: int| 0 <= a < j && is_alternation(g, order@[a]) && #[trigger] g[order@[a] as int].discriminant == d2;
                    }
                    assert(alternations@.to_set() =~= want);
                }
            }
            edges.push((d, kids));
            j += 1;
        }
        proof {
            let pairs = edge_pairs(edges@);
            assert forall|a: int, b: int| 0 <= a < b < pairs.len() implies pairs[a].0 != pairs[b].0 by {
                assert(order@[a] != order@[b]);
                assert(order@.contains(order@[a]) && order@.contains(order@[b]));
                assert(g[order@[a] as int].discriminant != g[order@[b] as int].discriminant);
            }
            lemma_edges_of_distinct(pairs);
            let ge = grammar_edges(g, start);
            let eo = edges_of(pairs);
            assert forall|d: usize| eo.dom().contains(d) <==> ge.dom().contains(d) by {
                if eo.dom().contains(d) {
                    let a = choose|a: int| 0 <= a < pairs.len() && pairs[a].0 == d;
                    assert(order@.contains(order@[a]));
                    assert(reachable(g, start, order@[a]) && g[order@[a] as int].discriminant == d);
                }
                if ge.dom().contains(d) {
                    let i = choose|i: usize| reachable(g, start, i) && #[trigger] g[i as int].discriminant == d;
                    let a = choose|a: int| 0 <= a < order@.len() && order@[a] == i;
                    assert(pairs[a].0 == d);
                }
            }
            assert forall|d: usize| #[trigger] eo.dom().contains(d) implies eo[d] == ge[d] by {
                let a = choose|a: int| 0 <= a < pairs.len() && pairs[a].0 == d;
                let i = choose|i: usize| reachable(g, start, i) && #[trigger] g[i as int].discriminant == d;
                assert(order@.contains(order@[a]));
                if i != order@[a] {
                    assert(g[i as int].discriminant != g[order@[a] as int].discriminant);
                }
            }
            assert(eo =~= ge);
            assert(alternations@.to_set() =~= grammar_alternations(g, start)) by {
                assert forall|d: usize| alternations@.to_set().contains(d) <==> grammar_alternations(g, start).contains(d) by {
                    if grammar_alternations(g, start).contains(d) {
                        let i = choose|i: usize| reachable(g, start, i) && is_alternation(g, i) && #[trigger] g[i as int].discriminant == d;
                        let a = choose|a: int| 0 <= a < order@.len() && order@[a] == i;
                        assert(g[order@[a] as int].discriminant == d);
                    }
                    if alternations@.to_set().contains(d) {
                        let a = choose|a: int| 0 <= a < order@.len() && is_alternation(g, order@[a]) && #[trigger] g[order@[a] as int].discriminant == d;
                        assert(order@.contains(order@[a]));
                    }
                }
            }
        }
        AltPaths::from_edges(k, &alternations, &edges)
    }
}

/// Counting the alt-paths that a node sees once less undoes counting them
/// once more: one node's step of the walks below.
pub proof fn lemma_remove_undoes_insert(m: Map<Seq<usize>, usize>, alt: Set<usize>, k: nat, stack: Seq<usize>)
    requires
        recountable(m, alt, k, stack, true),
    ensures
        recountable(recounted(m, alt, k, stack, true), alt, k, stack, false),
        recounted(recounted(m, alt, k, stack, true), alt, k, stack, false) == m,
{
    let up = recounted(m, alt, k, stack, true);
    assert(recounted(up, alt, k, stack, false) =~= m);
}

/// The counts after reaching the last nodes of `stacks` one after another,
/// every held path that each sees counted once more (`up`) or once less.
pub open spec fn recount_run(
    m: Map<Seq<usize>, usize>,
    alt: Set<usize>,
    k: nat,
    stacks: Seq<Seq<usize>>,
    up: bool,
) -> Map<Seq<usize>, usize>
    decreases stacks.len(),
{
    if stacks.len() == 0 {
        m
    } else {
        recounted(recount_run(m, alt, k, stacks.drop_last(), up), alt, k, stacks.last(), up)
    }
}

/// Whether every step of such a run stays within `usize`.
pub open spec fn run_recountable(
    m: Map<Seq<usize>, usize>,
    alt: Set<usize>,
    k: nat,
    stacks: Seq<Seq<usize>>,
    up: bool,
) -> bool {
    forall|j: int|
        0 <= j < stacks.len() ==> recountable(
            recount_run(m, alt, k, stacks.take(j), up),
            alt,
            k,
            #[trigger] stacks[j],
            up,
        )
}

/// How many of `stacks` see `p`.
pub open spec fn sightings(alt: Set<usize>, k: nat, stacks: Seq<Seq<usize>>, p: Seq<usize>) -> nat
    decreases stacks.len(),
{
    if stacks.len() == 0 {
        0
    } else {
        sightings(alt, k, stacks.drop_last(), p) + if seen_at(alt, k, stacks.last(), p) {
            1nat
        } else {
            0nat
        }
    }
}

proof fn lemma_sightings_prefix(alt: Set<usize>, k: nat, stacks: Seq<Seq<usize>>, p: Seq<usize>, j: int)
    requires
        0 <= j <= stacks.len(),
    ensures
        sightings(alt, k, stacks.take(j), p) <= sightings(alt, k, stacks, p),
    decreases stacks.len() - j,
{
    if j < stacks.len() {
        lemma_sightings_prefix(alt, k, stacks, p, j + 1);
        assert(stacks.take(j + 1).drop_last() =~= stacks.take(j));
    } else {
        assert(stacks.take(j) =~= stacks);
    }
}

proof fn lemma_run_up(m: Map<Seq<usize>, usize>, alt: Set<usize>, k: nat, stacks: Seq<Seq<usize>>)
    requires
        run_recountable(m, alt, k, stacks, true),
    ensures
        recount_run(m, alt, k, stacks, true).dom() == m.dom(),
        forall|p: Seq<usize>|
            #[trigger] m.dom().contains(p) ==> recount_run(m, alt, k, stacks, true)[p] == m[p] + sightings(
                alt,
                k,
                stacks,
                p,
            ),
    decreases stacks.len(),
{
    if stacks.len() > 0 {
        let s0 = stacks.drop_last();
        let last = stacks.len() - 1;
        assert forall|j: int| 0 <= j < s0.len() implies recountable(
            recount_run(m, alt, k, s0.take(j), true),
            alt,
            k,
            #[trigger] s0[j],
            true,
        ) by {
            assert(s0.take(j) =~= stacks.take(j));
            assert(s0[j] == stacks[j]);
            assert(recountable(recount_run(m, alt, k, stacks.take(j), true), alt, k, stacks[j], true));
        }
        lemma_run_up(m, alt, k, s0);
        assert(stacks.take(last) =~= s0);
        assert(recountable(recount_run(m, alt, k, stacks.take(last), true), alt, k, stacks[last], true));
        let r0 = recount_run(m, alt, k, s0, true);
        assert(recount_run(m, alt, k, stacks, true).dom() =~= m.dom());
        assert forall|p: Seq<usize>| #[trigger] m.dom().contains(p) implies recount_run(m, alt, k, stacks, true)[p]
            == m[p] + sightings(alt, k, stacks, p) by {
            assert(r0.dom().contains(p));
        }
    }
}

/// Whether `down` holds the counts `m` plus the sightings over all of
/// `stacks` less those over its first `j`.
#[verifier::opaque]
spec fn down_vals(
    m: Map<Seq<usize>, usize>,
    alt: Set<usize>,
    k: nat,
    stacks: Seq<Seq<usize>>,
    j: int,
    down: Map<Seq<usize>, usize>,
) -> bool {
    &&& down.dom() == m.dom()
    &&& forall|p: Seq<usize>|
        #[trigger] m.dom().contains(p) ==> down[p] == m[p] + sightings(alt, k, stacks, p) - sightings(
            alt,
            k,
            stacks.take(j),
            p,
        )
}

proof fn lemma_sightings_step(alt: Set<usize>, k: nat, stacks: Seq<Seq<usize>>, p: Seq<usize>, j: int)
    requires
        1 <= j <= stacks.len(),
    ensures
        sightings(alt, k, stacks.take(j), p) == sightings(alt, k, stacks.take(j - 1), p) + if seen_at(
            alt,
            k,
            stacks[j - 1],
            p,
        ) {
            1nat
        } else {
            0nat
        },
        sightings(alt, k, stacks.take(j), p) <= sightings(alt, k, stacks, p),
{
    assert(stacks.take(j).drop_last() =~= stacks.take(j - 1));
    assert(stacks.take(j).last() == stacks[j - 1]);
    lemma_sightings_prefix(alt, k, stacks, p, j);
}

proof fn lemma_down_step(
    m: Map<Seq<usize>, usize>,
    alt: Set<usize>,
    k: nat,
    stacks: Seq<Seq<usize>>,
    j: int,
    before: Map<Seq<usize>, usize>,
)
    requires
        1 <= j <= stacks.len(),
        down_vals(m, alt, k, stacks, j - 1, before),
    ensures
        recountable(before, alt, k, stacks[j - 1], false),
        down_vals(m, alt, k, stacks, j, recounted(before, alt, k, stacks[j - 1], false)),
{
    reveal(down_vals);
    assert forall|p: Seq<usize>| #[trigger] before.dom().contains(p) && seen_at(alt, k, stacks[j - 1], p) implies before[p] > 0 by {
        lemma_sightings_step(alt, k, stacks, p, j);
    }
    let down = recounted(before, alt, k, stacks[j - 1], false);
    assert(down.dom() =~= m.dom());
    assert forall|p: Seq<usize>| #[trigger] m.dom().contains(p) implies down[p] == m[p] + sightings(alt, k, stacks, p)
        - sightings(alt, k, stacks.take(j), p) by {
        lemma_sightings_step(alt, k, stacks, p, j);
    }
}

proof fn lemma_down_base(m: Map<Seq<usize>, usize>, alt: Set<usize>, k: nat, stacks: Seq<Seq<usize>>)
    requires
        run_recountable(m, alt, k, stacks, true),
    ensures
        down_vals(
            m,
            alt,
            k,
            stacks,
            0,
            recount_run(recount_run(m, alt, k, stacks, true), alt, k, stacks.take(0), false),
        ),
{
    reveal(down_vals);
    let top = recount_run(m, alt, k, stacks, true);
    lemma_run_up(m, alt, k, stacks);
    assert(stacks.take(0) =~= Seq::<Seq<usize>>::empty());
    assert(recount_run(top, alt, k, stacks.take(0), false) == top);
    assert forall|p: Seq<usize>| #[trigger] m.dom().contains(p) implies top[p] == m[p] + sightings(alt, k, stacks, p)
        - sightings(alt, k, stacks.take(0), p) by {
        assert(sightings(alt, k, stacks.take(0), p) == 0);
    }
}

#[verifier::spinoff_prover]
proof fn lemma_run_down(m: Map<Seq<usize>, usize>, alt: Set<usize>, k: nat, stacks: Seq<Seq<usize>>, j: int)
    requires
        run_recountable(m, alt, k, stacks, true),
        0 <= j <= stacks.len(),
    ensures
        down_vals(
            m,
            alt,
            k,
            stacks,
            j,
            recount_run(recount_run(m, alt, k, stacks, true), alt, k, stacks.take(j), false),
        ),
        forall|i: int|
            0 <= i < j ==> recountable(
                recount_run(recount_run(m, alt, k, stacks, true), alt, k, stacks.take(i), false),
                alt,
                k,
                #[trigger] stacks[i],
                false,
            ),
    decreases j,
{
    let top = recount_run(m, alt, k, stacks, true);
    if j == 0 {
        lemma_down_base(m, alt, k, stacks);
    } else {
        lemma_run_down(m, alt, k, stacks, j - 1);
        let before = recount_run(top, alt, k, stacks.take(j - 1), false);
        assert(stacks.take(j).drop_last() =~= stacks.take(j - 1));
        assert(stacks.take(j).last() == stacks[j - 1]);
        lemma_down_step(m, alt, k, stacks, j, before);
        assert(recount_run(top, alt, k, stacks.take(j), false) == recounted(before, alt, k, stacks[j - 1], false));
    }
}

/// A removing walk undoes an inserting walk over the same tree: when
/// counting once more every held path that each node the walk reaches sees
/// stays within `usize` all along (the walk's stacks, in order), counting
/// them once less over the same stacks never falls below zero, and gives
/// the counts back.
pub proof fn lemma_remove_run_undoes_insert_run(
    m: Map<Seq<usize>, usize>,
    alt: Set<usize>,
    k: nat,
    stacks: Seq<Seq<usize>>,
)
    requires
        run_recountable(m, alt, k, stacks, true),
    ensures
        run_recountable(recount_run(m, alt, k, stacks, true), alt, k, stacks, false),
        recount_run(recount_run(m, alt, k, stacks, true), alt, k, stacks, false) == m,
{
    lemma_run_down(m, alt, k, stacks, stacks.len() as int);
    reveal(down_vals);
    assert(stacks.take(stacks.len() as int) =~= stacks);
    let down = recount_run(recount_run(m, alt, k, stacks, true), alt, k, stacks, false);
    assert(down =~= m);
}

/// Before anything is counted every alt-path is unseen: after
/// [`AltPaths::from_edges`] or [`AltPaths::clear`], `alt_paths` gives the
/// total twice.
pub proof fn lemma_all_unseen(m: Map<Seq<usize>, usize>)
    requires
        all_zero(m),
    ensures
        m.dom().filter(unseen(m)) == m.dom(),
{
    assert(m.dom().filter(unseen(m)) =~= m.dom());
}

} // verus!
