//! Cycles in a directed graph: a depth-first search reports the cycle that
//! every back edge closes.
use vstd::prelude::*;
use crate::order;
use crate::order::SortedSet;
use crate::text;
use crate::text::copied;

verus! {

/// A directed graph over named nodes. Node `i` is called `names[i]`, and
/// `edges[i]` lists the nodes that its edges lead to.
pub struct Graph {
    pub names: Vec<String>,
    pub edges: Vec<Vec<usize>>,
}

/// The edges of a graph: the targets of every node, in order.
pub open spec fn edge_lists(edges: Seq<Vec<usize>>) -> Seq<Seq<int>> {
    edges.map_values(|list: Vec<usize>| order::keys(list@))
}

/// Whether every edge leads to a node.
pub open spec fn is_graph(g: Seq<Seq<int>>) -> bool {
    forall|u: int, k: int|
        0 <= u < g.len() && 0 <= k < g[u].len() ==> 0 <= #[trigger] g[u][k] < g.len()
}

/// Whether the graph has an edge from `u` to `v`.
pub open spec fn has_edge(g: Seq<Seq<int>>, u: int, v: int) -> bool {
    0 <= u < g.len() && g[u].contains(v)
}

impl Graph {
    /// The edges, by node.
    pub open spec fn adjacency(&self) -> Seq<Seq<int>> {
        edge_lists(self.edges@)
    }

    /// Every node has a name, the names are in strictly increasing order, and
    /// every edge leads to a node.
    pub open spec fn wf(&self) -> bool {
        &&& self.names@.len() == self.edges@.len()
        &&& order::sorted(text::views(self.names@))
        &&& is_graph(self.adjacency())
    }
}

// ---------------------------------------------------------------------------
// Canonical form
// ---------------------------------------------------------------------------

/// Whether position `k` holds the smallest element of `c`, the first of them.
pub open spec fn is_smallest(c: Seq<int>, k: int) -> bool {
    &&& 0 <= k < c.len()
    &&& forall|i: int| 0 <= i < c.len() ==> c[k] <= #[trigger] c[i]
    &&& forall|i: int| 0 <= i < k ==> c[k] < #[trigger] c[i]
}

/// `c` rotated so that position `k` comes first.
pub open spec fn rotated(c: Seq<int>, k: int) -> Seq<int> {
    c.skip(k) + c.take(k)
}

/// `c` rotated so that its smallest element comes first.
pub open spec fn canonical(c: Seq<int>) -> Seq<int> {
    if c.len() == 0 {
        c
    } else {
        rotated(c, choose|k: int| is_smallest(c, k))
    }
}

/// Rotates a cycle so that its smallest node comes first: the same cycle is
/// the same list wherever the search entered it.
pub fn canonicalize_cycle(cycle: &[usize]) -> (r: Vec<usize>)
    ensures
        order::keys(r@) == canonical(order::keys(cycle@)),
{
    let ghost c = order::keys(cycle@);
    let n: usize = cycle.len();
    let mut r: Vec<usize> = Vec::new();
    if n == 0 {
        assert(order::keys(r@) =~= c);
        return r;
    }
    let mut best: usize = 0;
    let mut i: usize = 1;
    while i < n
        invariant
            n == cycle@.len(),
            c == order::keys(cycle@),
            best < i <= n,
            forall|j: int| 0 <= j < i ==> c[best as int] <= #[trigger] c[j],
            forall|j: int| 0 <= j < best ==> c[best as int] < #[trigger] c[j],
        decreases n - i,
    {
        assert(c[i as int] == cycle@[i as int]);
        assert(c[best as int] == cycle@[best as int]);
        if cycle[i] < cycle[best] {
            best = i;
        }
        i += 1;
    }
    proof {
        assert(is_smallest(c, best as int));
        let k = choose|k: int| is_smallest(c, k);
        assert(k == best);
    }
    let mut j: usize = best;
    while j < n
        invariant
            n == cycle@.len(),
            best <= j <= n,
            r@ == cycle@.subrange(best as int, j as int),
        decreases n - j,
    {
        r.push(cycle[j]);
        j += 1;
    }
    let mut j: usize = 0;
    while j < best
        invariant
            best < n,
            n == cycle@.len(),
            j <= best,
            r@ == cycle@.subrange(best as int, n as int) + cycle@.subrange(0, j as int),
        decreases best - j,
    {
        r.push(cycle[j]);
        assert(r@ =~= cycle@.subrange(best as int, n as int) + cycle@.subrange(0, j + 1));
        j += 1;
    }
    assert(order::keys(r@) =~= rotated(c, best as int));
    r
}

// ---------------------------------------------------------------------------
// The search
// ---------------------------------------------------------------------------

/// What a search has done: the nodes that it has left, in the order in which
/// it left them, and the canonical cycles that it has found, sorted.
pub struct Progress {
    pub done: Seq<int>,
    pub found: Seq<Seq<int>>,
}

/// The part of `path` that begins at the first `node` in it.
pub open spec fn tail_from(path: Seq<int>, node: int) -> Seq<int>
    decreases path.len(),
{
    if path.len() == 0 || path[0] == node {
        path
    } else {
        tail_from(path.drop_first(), node)
    }
}

/// The search enters `node`, which `path` leads to, follows its edges and
/// leaves it.
pub open spec fn visited(g: Seq<Seq<int>>, node: int, path: Seq<int>, p: Progress) -> Progress
    decreases g.len() - path.len(), 0int, 0int,
{
    if path.len() >= g.len() {
        p
    } else {
        let q = followed(g, node, 0, path.push(node), p);
        Progress { done: q.done.push(node), found: q.found }
    }
}

/// The search follows one edge, from the end of `path` to `next`. An edge back
/// into the path closes a cycle; an edge to a node that was left already is
/// passed over.
pub open spec fn stepped(g: Seq<Seq<int>>, path: Seq<int>, next: int, p: Progress) -> Progress
    decreases g.len() - path.len(), 1int, 0int,
{
    if path.contains(next) {
        Progress {
            done: p.done,
            found: order::added(p.found, canonical(tail_from(path, next))),
        }
    } else if p.done.contains(next) {
        p
    } else {
        visited(g, next, path, p)
    }
}

/// The search follows the edges of `node` from the `k`-th on, where `path`
/// leads to `node` and includes it.
pub open spec fn followed(
    g: Seq<Seq<int>>,
    node: int,
    k: int,
    path: Seq<int>,
    p: Progress,
) -> Progress
    decreases g.len() - path.len(), 2int, g[node].len() - k,
{
    if k < 0 || k >= g[node].len() {
        p
    } else {
        followed(g, node, k + 1, path, stepped(g, path, g[node][k], p))
    }
}

/// The search enters the nodes from `root` on, in order, unless it has left
/// them already.
pub open spec fn searched(g: Seq<Seq<int>>, root: int, p: Progress) -> Progress
    decreases g.len() - root,
{
    if root >= g.len() {
        p
    } else if p.done.contains(root) {
        searched(g, root + 1, p)
    } else {
        searched(g, root + 1, visited(g, root, Seq::empty(), p))
    }
}

/// The cycles that the search finds in `g`: canonical and sorted.
pub open spec fn all_cycles(g: Seq<Seq<int>>) -> Seq<Seq<int>> {
    searched(g, 0, (Progress { done: Seq::empty(), found: Seq::empty() })).found
}

// ---------------------------------------------------------------------------
// What the search finds
// ---------------------------------------------------------------------------

/// The node after position `i` on the way round `c`.
pub open spec fn next_on(c: Seq<int>, i: int) -> int {
    if i + 1 < c.len() {
        c[i + 1]
    } else {
        c[0]
    }
}

/// Whether `c` is a cycle of `g`: its nodes are distinct, and an edge leads
/// from every node to the next and from the last to the first.
pub open spec fn is_cycle(g: Seq<Seq<int>>, c: Seq<int>) -> bool {
    &&& c.len() > 0
    &&& c.no_duplicates()
    &&& forall|i: int| 0 <= i < c.len() ==> has_edge(g, c[i], #[trigger] next_on(c, i))
}

/// Whether the way round `c` takes the edge from `u` to `v`.
pub open spec fn takes_edge(c: Seq<int>, u: int, v: int) -> bool {
    exists|i: int| 0 <= i < c.len() && c[i] == u && #[trigger] next_on(c, i) == v
}

/// Whether one of the cycles takes the edge from `u` to `v`.
pub open spec fn covers(found: Seq<Seq<int>>, u: int, v: int) -> bool {
    exists|c: Seq<int>| #[trigger] found.contains(c) && takes_edge(c, u, v)
}

/// Whether the smallest node of `c` comes first.
pub open spec fn is_canonical(c: Seq<int>) -> bool {
    forall|i: int| 0 <= i < c.len() ==> c[0] <= #[trigger] c[i]
}

/// Whether every entry of `found` is a cycle of `g` in canonical form.
pub open spec fn are_cycles(g: Seq<Seq<int>>, found: Seq<Seq<int>>) -> bool {
    forall|c: Seq<int>| #[trigger] found.contains(c) ==> is_cycle(g, c) && is_canonical(c)
}

/// Whether `path` is a walk of `g` over distinct nodes.
spec fn is_path(g: Seq<Seq<int>>, path: Seq<int>) -> bool {
    &&& path.no_duplicates()
    &&& forall|i: int| 0 <= i < path.len() ==> 0 <= #[trigger] path[i] < g.len()
    &&& forall|i: int|
        0 <= i < path.len() - 1 ==> has_edge(g, path[i], #[trigger] next_on(path, i))
}

/// Whether the edge from `u` to `v` needs no more attention: it leads to a
/// node that was left before, or a reported cycle takes it.
spec fn is_accounted(earlier: Seq<int>, found: Seq<Seq<int>>, u: int, v: int) -> bool {
    earlier.contains(v) || covers(found, u, v)
}

/// What holds of a search whose current path is `path`.
spec fn is_sound(g: Seq<Seq<int>>, path: Seq<int>, p: Progress) -> bool {
    &&& p.done.no_duplicates()
    &&& forall|i: int| 0 <= i < p.done.len() ==> 0 <= #[trigger] p.done[i] < g.len()
    &&& forall|i: int| 0 <= i < path.len() ==> !p.done.contains(#[trigger] path[i])
    &&& order::sorted(p.found)
    &&& are_cycles(g, p.found)
    &&& forall|i: int, v: int|
        #![trigger has_edge(g, p.done[i], v)]
        0 <= i < p.done.len() && has_edge(g, p.done[i], v) ==> is_accounted(
            p.done.take(i),
            p.found,
            p.done[i],
            v,
        )
}

/// Whether `q` continues `p`.
spec fn continues(p: Progress, q: Progress) -> bool {
    &&& p.done.is_prefix_of(q.done)
    &&& forall|c: Seq<int>| p.found.contains(c) ==> #[trigger] q.found.contains(c)
}

proof fn lemma_continues(p: Progress, q: Progress, u: int, v: int)
    requires
        continues(p, q),
        is_accounted(p.done, p.found, u, v),
    ensures
        is_accounted(q.done, q.found, u, v),
{
    if p.done.contains(v) {
        let i = choose|i: int| 0 <= i < p.done.len() && p.done[i] == v;
        assert(q.done.take(p.done.len() as int)[i] == q.done[i]);
        assert(q.done[i] == v);
    } else {
        let c = choose|c: Seq<int>| #[trigger] p.found.contains(c) && takes_edge(c, u, v);
        assert(q.found.contains(c));
    }
}

proof fn lemma_continues_transitive(p: Progress, q: Progress, r: Progress)
    requires
        continues(p, q),
        continues(q, r),
    ensures
        continues(p, r),
{
    assert(p.done =~= r.done.take(p.done.len() as int)) by {
        assert forall|i: int| 0 <= i < p.done.len() implies p.done[i] == r.done[i] by {
            assert(q.done.take(p.done.len() as int)[i] == q.done[i]);
            assert(r.done.take(q.done.len() as int)[i] == r.done[i]);
        }
    }
    assert forall|c: Seq<int>| p.found.contains(c) implies #[trigger] r.found.contains(c) by {
        assert(q.found.contains(c));
    }
}

proof fn lemma_smallest_exists(c: Seq<int>, n: int) -> (k: int)
    requires
        0 < n <= c.len(),
    ensures
        is_smallest(c.take(n), k),
    decreases n,
{
    let t = c.take(n);
    if n == 1 {
        0
    } else {
        let k = lemma_smallest_exists(c, n - 1);
        let d = c.take(n - 1);
        assert forall|i: int| 0 <= i < n - 1 implies d[i] == t[i] by {}
        if t[n - 1] < t[k] {
            assert forall|i: int| 0 <= i < n - 1 implies t[n - 1] < #[trigger] t[i] by {
                assert(d[k] <= d[i]);
            }
            n - 1
        } else {
            assert forall|i: int| 0 <= i < n implies t[k] <= #[trigger] t[i] by {
                if i < n - 1 {
                    assert(d[k] <= d[i]);
                }
            }
            assert forall|i: int| 0 <= i < k implies t[k] < #[trigger] t[i] by {
                assert(d[k] < d[i]);
            }
            k
        }
    }
}

/// Where a rotation by `k` takes position `i` from.
spec fn source_of(n: int, k: int, i: int) -> int {
    if i + k < n {
        i + k
    } else {
        i + k - n
    }
}

/// What stands where after a rotation.
proof fn lemma_rotated(c: Seq<int>, k: int, i: int)
    requires
        0 <= k < c.len(),
        0 <= i < c.len(),
    ensures
        rotated(c, k).len() == c.len(),
        0 <= source_of(c.len() as int, k, i) < c.len(),
        rotated(c, k)[i] == c[source_of(c.len() as int, k, i)],
        next_on(rotated(c, k), i) == next_on(c, source_of(c.len() as int, k, i)),
{
}

/// A rotation keeps a cycle a cycle, over the same edges.
proof fn lemma_rotated_cycle(g: Seq<Seq<int>>, c: Seq<int>, k: int)
    requires
        is_cycle(g, c),
        0 <= k < c.len(),
    ensures
        is_cycle(g, rotated(c, k)),
{
    let n = c.len() as int;
    let r = rotated(c, k);
    lemma_rotated(c, k, 0);
    assert forall|i: int, j: int| 0 <= i < n && 0 <= j < n && i != j implies r[i] != r[j] by {
        lemma_rotated(c, k, i);
        lemma_rotated(c, k, j);
        assert(source_of(n, k, i) != source_of(n, k, j));
    }
    assert forall|i: int| 0 <= i < n implies has_edge(g, r[i], #[trigger] next_on(r, i)) by {
        lemma_rotated(c, k, i);
        let j = source_of(n, k, i);
        assert(has_edge(g, c[j], next_on(c, j)));
    }
}

proof fn lemma_rotated_edge(c: Seq<int>, k: int, u: int, v: int)
    requires
        0 <= k < c.len(),
        takes_edge(c, u, v),
    ensures
        takes_edge(rotated(c, k), u, v),
{
    let n = c.len() as int;
    let j = choose|j: int| 0 <= j < n && c[j] == u && #[trigger] next_on(c, j) == v;
    let i = if j >= k {
        j - k
    } else {
        j - k + n
    };
    lemma_rotated(c, k, i);
    assert(source_of(n, k, i) == j);
    assert(rotated(c, k)[i] == u);
}

/// Canonical form keeps a cycle a cycle, over the same edges.
proof fn lemma_canonical(g: Seq<Seq<int>>, c: Seq<int>)
    requires
        is_cycle(g, c),
    ensures
        is_cycle(g, canonical(c)),
        is_canonical(canonical(c)),
        forall|u: int, v: int| takes_edge(c, u, v) ==> #[trigger] takes_edge(canonical(c), u, v),
{
    let n = c.len() as int;
    let m = lemma_smallest_exists(c, n);
    assert(c.take(n) =~= c);
    assert(is_smallest(c, m));
    let k = choose|k: int| is_smallest(c, k);
    let r = rotated(c, k);
    lemma_rotated_cycle(g, c, k);
    assert(is_canonical(r)) by {
        lemma_rotated(c, k, 0);
        assert forall|i: int| 0 <= i < n implies r[0] <= #[trigger] r[i] by {
            lemma_rotated(c, k, i);
            assert(c[k] <= c[source_of(n, k, i)]);
        }
    }
    assert forall|u: int, v: int| takes_edge(c, u, v) implies #[trigger] takes_edge(r, u, v) by {
        lemma_rotated_edge(c, k, u, v);
    }
}

/// The part of a path from a node on is a suffix that begins with the node.
proof fn lemma_tail_from(path: Seq<int>, node: int) -> (s: int)
    requires
        path.contains(node),
    ensures
        0 <= s < path.len(),
        path[s] == node,
        tail_from(path, node) == path.skip(s),
        forall|i: int| 0 <= i < s ==> #[trigger] path[i] != node,
    decreases path.len(),
{
    if path[0] == node {
        assert(path.skip(0) =~= path);
        0
    } else {
        let t = path.drop_first();
        let j = choose|j: int| 0 <= j < path.len() && path[j] == node;
        assert(t[j - 1] == node);
        let s = lemma_tail_from(t, node);
        assert(t.skip(s) =~= path.skip(s + 1));
        assert forall|i: int| 0 <= i < s + 1 implies #[trigger] path[i] != node by {
            if i > 0 {
                assert(t[i - 1] != node);
            }
        }
        s + 1
    }
}

/// An edge back into the path closes a cycle.
proof fn lemma_back_edge(g: Seq<Seq<int>>, path: Seq<int>, next: int)
    requires
        path.len() > 0,
        is_path(g, path),
        path.contains(next),
        has_edge(g, path.last(), next),
    ensures
        is_cycle(g, tail_from(path, next)),
        takes_edge(tail_from(path, next), path.last(), next),
{
    let s = lemma_tail_from(path, next);
    let c = path.skip(s);
    assert forall|i: int| 0 <= i < c.len() implies has_edge(g, c[i], #[trigger] next_on(c, i)) by {
        assert(c[i] == path[s + i]);
        if i + 1 < c.len() {
            assert(has_edge(g, path[s + i], next_on(path, s + i)));
        }
    }
    assert(c[c.len() - 1] == path.last());
    assert(next_on(c, c.len() - 1) == next);
}

/// A walk over distinct nodes is no longer than the graph is large.
proof fn lemma_path_len(g: Seq<Seq<int>>, path: Seq<int>)
    requires
        is_path(g, path),
    ensures
        path.len() <= g.len(),
{
    let nodes = vstd::set_lib::set_int_range(0, g.len() as int);
    vstd::set_lib::lemma_int_range(0, g.len() as int);
    path.unique_seq_to_set();
    assert(path.to_set().subset_of(nodes)) by {
        assert forall|x: int| path.to_set().contains(x) implies nodes.contains(x) by {
            let i = choose|i: int| 0 <= i < path.len() && path[i] == x;
            assert(0 <= path[i] < g.len());
        }
    }
    vstd::set_lib::lemma_len_subset(path.to_set(), nodes);
}

proof fn lemma_visited(g: Seq<Seq<int>>, node: int, path: Seq<int>, p: Progress)
    requires
        is_graph(g),
        is_path(g, path.push(node)),
        is_sound(g, path, p),
        !p.done.contains(node),
    ensures
        is_sound(g, path, visited(g, node, path, p)),
        continues(p, visited(g, node, path, p)),
        visited(g, node, path, p).done.contains(node),
    decreases g.len() - path.len(), 0int, 0int,
{
    let longer = path.push(node);
    lemma_path_len(g, longer);
    assert(longer[path.len() as int] == node);
    assert(is_sound(g, longer, p)) by {
        assert forall|i: int| 0 <= i < longer.len() implies !p.done.contains(
            #[trigger] longer[i],
        ) by {
            if i < path.len() {
                assert(longer[i] == path[i]);
            }
        }
    }
    lemma_followed(g, node, 0, longer, p);
    let q = followed(g, node, 0, longer, p);
    let r = visited(g, node, path, p);
    assert(r.done == q.done.push(node));
    assert(r.done[q.done.len() as int] == node);
    assert(!q.done.contains(longer[path.len() as int]));
    assert(r.done.no_duplicates());
    assert forall|i: int| 0 <= i < r.done.len() implies 0 <= #[trigger] r.done[i] < g.len() by {
        if i < q.done.len() {
            assert(r.done[i] == q.done[i]);
        } else {
            assert(0 <= longer[path.len() as int] < g.len());
        }
    }
    assert forall|i: int| 0 <= i < path.len() implies !r.done.contains(#[trigger] path[i]) by {
        assert(longer[i] == path[i]);
        assert(!q.done.contains(longer[i]));
        assert(longer[i] != longer[path.len() as int]);
        if r.done.contains(path[i]) {
            let j = choose|j: int| 0 <= j < r.done.len() && r.done[j] == path[i];
            if j < q.done.len() {
                assert(q.done[j] == path[i]);
            }
        }
    }
    assert forall|i: int, v: int|
        #![trigger has_edge(g, r.done[i], v)]
        0 <= i < r.done.len() && has_edge(g, r.done[i], v) implies is_accounted(
        r.done.take(i),
        r.found,
        r.done[i],
        v,
    ) by {
        assert(r.done.take(i) =~= q.done.take(i));
        if i < q.done.len() {
            assert(r.done[i] == q.done[i]);
            assert(has_edge(g, q.done[i], v));
        } else {
            assert(q.done.take(i) =~= q.done);
            let k = choose|k: int| 0 <= k < g[node].len() && g[node][k] == v;
            assert(is_accounted(q.done, q.found, node, g[node][k]));
        }
    }
    assert(continues(q, r)) by {
        assert(r.done.take(q.done.len() as int) =~= q.done);
    }
    lemma_continues_transitive(p, q, r);
}

proof fn lemma_stepped(g: Seq<Seq<int>>, path: Seq<int>, next: int, p: Progress)
    requires
        is_graph(g),
        is_path(g, path),
        path.len() > 0,
        has_edge(g, path.last(), next),
        is_sound(g, path, p),
    ensures
        is_sound(g, path, stepped(g, path, next, p)),
        continues(p, stepped(g, path, next, p)),
        is_accounted(
            stepped(g, path, next, p).done,
            stepped(g, path, next, p).found,
            path.last(),
            next,
        ),
    decreases g.len() - path.len(), 1int, 0int,
{
    let node = path.last();
    assert(path[path.len() - 1] == node);
    let k = choose|k: int| 0 <= k < g[node].len() && g[node][k] == next;
    assert(0 <= g[node][k] < g.len());
    let q = stepped(g, path, next, p);
    if path.contains(next) {
        let c = canonical(tail_from(path, next));
        lemma_back_edge(g, path, next);
        lemma_canonical(g, tail_from(path, next));
        order::lemma_added(p.found, c);
        assert(q.found.contains(c));
        assert(continues(p, q)) by {
            assert(q.done.take(p.done.len() as int) =~= p.done);
        }
        assert(takes_edge(c, node, next));
        assert(covers(q.found, node, next));
        assert forall|i: int, v: int|
            #![trigger has_edge(g, q.done[i], v)]
            0 <= i < q.done.len() && has_edge(g, q.done[i], v) implies is_accounted(
            q.done.take(i),
            q.found,
            q.done[i],
            v,
        ) by {
            let earlier = Progress { done: p.done.take(i), found: p.found };
            let later = Progress { done: p.done.take(i), found: q.found };
            assert(has_edge(g, p.done[i], v));
            assert(later.done.take(earlier.done.len() as int) =~= earlier.done);
            lemma_continues(earlier, later, q.done[i], v);
        }
        assert(is_sound(g, path, q));
    } else if p.done.contains(next) {
        assert(p.done.take(p.done.len() as int) =~= p.done);
    } else {
        lemma_path_extends(g, path, next);
        lemma_visited(g, next, path, p);
    }
}

/// An edge out of the path makes a longer path.
proof fn lemma_path_extends(g: Seq<Seq<int>>, path: Seq<int>, next: int)
    requires
        is_graph(g),
        is_path(g, path),
        path.len() > 0,
        has_edge(g, path.last(), next),
        !path.contains(next),
    ensures
        is_path(g, path.push(next)),
{
    let longer = path.push(next);
    let node = path.last();
    assert(path[path.len() - 1] == node);
    let k = choose|k: int| 0 <= k < g[node].len() && g[node][k] == next;
    assert(0 <= g[node][k] < g.len());
    assert forall|i: int| 0 <= i < longer.len() - 1 implies has_edge(
        g,
        longer[i],
        #[trigger] next_on(longer, i),
    ) by {
        if i + 1 < path.len() {
            assert(has_edge(g, path[i], next_on(path, i)));
        }
    }
    assert forall|i: int, j: int|
        0 <= i < longer.len() && 0 <= j < longer.len() && i != j implies longer[i]
        != longer[j] by {
        if i < path.len() && j < path.len() {
        } else if i < path.len() {
            assert(path.contains(path[i]));
        } else {
            assert(path.contains(path[j]));
        }
    }
}

proof fn lemma_followed(g: Seq<Seq<int>>, node: int, k: int, path: Seq<int>, p: Progress)
    requires
        is_graph(g),
        is_path(g, path),
        path.len() > 0,
        path.last() == node,
        is_sound(g, path, p),
        0 <= k <= g[node].len(),
        forall|j: int|
            0 <= j < k ==> is_accounted(p.done, p.found, node, #[trigger] g[node][j]),
    ensures
        is_sound(g, path, followed(g, node, k, path, p)),
        continues(p, followed(g, node, k, path, p)),
        forall|j: int|
            0 <= j < g[node].len() ==> is_accounted(
                followed(g, node, k, path, p).done,
                followed(g, node, k, path, p).found,
                node,
                #[trigger] g[node][j],
            ),
    decreases g.len() - path.len(), 2int, g[node].len() - k,
{
    assert(path[path.len() - 1] == node);
    assert(0 <= node < g.len());
    if k == g[node].len() {
        assert(p.done.take(p.done.len() as int) =~= p.done);
    } else {
        let next = g[node][k];
        assert(has_edge(g, node, next));
        let q = stepped(g, path, next, p);
        lemma_stepped(g, path, next, p);
        assert forall|j: int| 0 <= j < k + 1 implies is_accounted(
            q.done,
            q.found,
            node,
            #[trigger] g[node][j],
        ) by {
            if j < k {
                lemma_continues(p, q, node, g[node][j]);
            }
        }
        lemma_followed(g, node, k + 1, path, q);
        lemma_continues_transitive(p, q, followed(g, node, k + 1, path, q));
    }
}

proof fn lemma_searched(g: Seq<Seq<int>>, root: int, p: Progress)
    requires
        is_graph(g),
        0 <= root <= g.len(),
        is_sound(g, Seq::empty(), p),
        forall|u: int| 0 <= u < root ==> #[trigger] p.done.contains(u),
    ensures
        is_sound(g, Seq::empty(), searched(g, root, p)),
        forall|u: int| 0 <= u < g.len() ==> #[trigger] searched(g, root, p).done.contains(u),
    decreases g.len() - root,
{
    if root < g.len() {
        let q = if p.done.contains(root) {
            p
        } else {
            visited(g, root, Seq::empty(), p)
        };
        if !p.done.contains(root) {
            let path = Seq::<int>::empty().push(root);
            assert(is_path(g, path));
            lemma_visited(g, root, Seq::empty(), p);
            assert forall|u: int| 0 <= u < root + 1 implies #[trigger] q.done.contains(u) by {
                if u < root {
                    assert(p.done.contains(u));
                    let i = choose|i: int| 0 <= i < p.done.len() && p.done[i] == u;
                    assert(q.done.take(p.done.len() as int)[i] == q.done[i]);
                    assert(q.done[i] == u);
                }
            }
        }
        lemma_searched(g, root + 1, q);
    }
}

/// Every reported cycle is a cycle of the graph over distinct nodes with its
/// smallest node first, and the report is sorted without repetition.
pub proof fn lemma_reported_cycles(g: Seq<Seq<int>>)
    requires
        is_graph(g),
    ensures
        order::sorted(all_cycles(g)),
        all_cycles(g).no_duplicates(),
        are_cycles(g, all_cycles(g)),
{
    let p = Progress { done: Seq::empty(), found: Seq::empty() };
    assert(is_sound(g, Seq::empty(), p));
    lemma_searched(g, 0, p);
    order::lemma_sorted_distinct(all_cycles(g));
}

/// Whether `w` is a closed walk of `g`: nodes may repeat.
pub open spec fn is_closed_walk(g: Seq<Seq<int>>, w: Seq<int>) -> bool {
    &&& w.len() > 0
    &&& forall|i: int| 0 <= i < w.len() ==> has_edge(g, w[i], #[trigger] next_on(w, i))
}

/// The position at which `done` holds `u`.
spec fn rank(done: Seq<int>, u: int) -> int {
    choose|i: int| 0 <= i < done.len() && done[i] == u
}

/// Along edges that no reported cycle takes, the search left nodes in
/// decreasing order.
proof fn lemma_rank_falls(g: Seq<Seq<int>>, p: Progress, w: Seq<int>, i: int)
    requires
        is_graph(g),
        is_sound(g, Seq::empty(), p),
        forall|u: int| 0 <= u < g.len() ==> #[trigger] p.done.contains(u),
        is_closed_walk(g, w),
        forall|j: int|
            0 <= j < w.len() ==> !covers(p.found, w[j], #[trigger] next_on(w, j)),
        0 <= i < w.len(),
    ensures
        rank(p.done, w[i]) <= rank(p.done, w[0]) - i,
        rank(p.done, next_on(w, i)) < rank(p.done, w[i]),
    decreases i,
{
    let u = w[i];
    let v = next_on(w, i);
    assert(has_edge(g, w[i], next_on(w, i)));
    let k = choose|k: int| 0 <= k < g[u].len() && g[u][k] == v;
    assert(0 <= g[u][k] < g.len());
    assert(p.done.contains(u));
    assert(p.done.contains(v));
    let ru = rank(p.done, u);
    let rv = rank(p.done, v);
    assert(has_edge(g, p.done[ru], v));
    assert(!covers(p.found, w[i], next_on(w, i)));
    assert(is_accounted(p.done.take(ru), p.found, u, v));
    let m = choose|m: int| 0 <= m < p.done.take(ru).len() && p.done.take(ru)[m] == v;
    assert(p.done[m] == v && p.done[rv] == v);
    assert(m == rv);
    if i > 0 {
        lemma_rank_falls(g, p, w, i - 1);
    }
}

/// Every closed walk of the graph takes an edge that a reported cycle takes.
pub proof fn lemma_every_cycle_is_met(g: Seq<Seq<int>>, w: Seq<int>)
    requires
        is_graph(g),
        is_closed_walk(g, w),
    ensures
        exists|i: int|
            0 <= i < w.len() && covers(all_cycles(g), w[i], #[trigger] next_on(w, i)),
{
    let p = Progress { done: Seq::empty(), found: Seq::empty() };
    assert(is_sound(g, Seq::empty(), p));
    lemma_searched(g, 0, p);
    let q = searched(g, 0, p);
    if forall|j: int| 0 <= j < w.len() ==> !covers(q.found, w[j], #[trigger] next_on(w, j)) {
        lemma_rank_falls(g, q, w, w.len() - 1);
        assert(false);
    }
}

/// Nothing is reported exactly when the graph has no cycle.
pub proof fn lemma_acyclic(g: Seq<Seq<int>>)
    requires
        is_graph(g),
    ensures
        all_cycles(g).len() == 0 <==> forall|w: Seq<int>| !#[trigger] is_closed_walk(g, w),
{
    lemma_reported_cycles(g);
    if all_cycles(g).len() > 0 {
        let c = all_cycles(g)[0];
        assert(all_cycles(g).contains(c));
        assert(is_closed_walk(g, c));
    } else {
        assert forall|w: Seq<int>| !#[trigger] is_closed_walk(g, w) by {
            if is_closed_walk(g, w) {
                lemma_every_cycle_is_met(g, w);
                let i = choose|i: int|
                    0 <= i < w.len() && covers(all_cycles(g), w[i], #[trigger] next_on(w, i));
                let c = choose|c: Seq<int>|
                    #[trigger] all_cycles(g).contains(c) && takes_edge(c, w[i], next_on(w, i));
                assert(all_cycles(g).contains(c));
            }
        }
    }
}

// ---------------------------------------------------------------------------
// The search, executed
// ---------------------------------------------------------------------------

/// How far the search is with a node.
#[derive(Clone, Copy, Debug, PartialEq, Eq, Structural)]
pub enum DfsColor {
    /// Not entered yet.
    White,
    /// On the current path.
    Gray,
    /// Left.
    Black,
}

/// Whether the colours tell which nodes are on the path and which were left.
spec fn is_colored(colors: Seq<DfsColor>, path: Seq<int>, done: Seq<int>) -> bool {
    forall|u: int|
        0 <= u < colors.len() ==> {
            &&& #[trigger] colors[u] == DfsColor::Gray <==> path.contains(u)
            &&& colors[u] == DfsColor::Black <==> done.contains(u)
        }
}

/// The first position of `node` in `path`.
fn position_in(path: &Vec<usize>, node: usize) -> (s: usize)
    requires
        order::keys(path@).contains(node as int),
    ensures
        s < path@.len(),
        order::keys(path@.skip(s as int)) == tail_from(order::keys(path@), node as int),
{
    let ghost p = order::keys(path@);
    let n: usize = path.len();
    let mut s: usize = 0;
    let ghost at: int = lemma_tail_from(p, node as int);
    while path[s] != node
        invariant
            p == order::keys(path@),
            0 <= s <= at < n,
            n == path@.len(),
            p[at] == node,
            forall|i: int| 0 <= i < at ==> #[trigger] p[i] != node,
        decreases at - s,
    {
        assert(p[s as int] == path@[s as int]);
        s += 1;
    }
    assert(p[s as int] == path@[s as int]);
    assert(order::keys(path@.skip(s as int)) =~= p.skip(s as int));
    s
}

/// Enters `node`, follows its edges and leaves it, adding the cycle that every
/// back edge closes to `found`.
fn dfs_collect_cycles(
    node: usize,
    graph: &Graph,
    colors: &mut Vec<DfsColor>,
    path: &mut Vec<usize>,
    found: &mut SortedSet<Vec<usize>>,
    Ghost(done): Ghost<Seq<int>>,
)
    requires
        is_graph(graph.adjacency()),
        is_path(graph.adjacency(), order::keys(old(path)@).push(node as int)),
        is_sound(
            graph.adjacency(),
            order::keys(old(path)@),
            (Progress { done, found: old(found)@ }),
        ),
        !done.contains(node as int),
        old(colors)@.len() == graph.adjacency().len(),
        is_colored(old(colors)@, order::keys(old(path)@), done),
    ensures
        final(path)@ == old(path)@,
        final(colors)@.len() == graph.adjacency().len(),
        final(found)@ == visited(
            graph.adjacency(),
            node as int,
            order::keys(old(path)@),
            (Progress { done, found: old(found)@ }),
        ).found,
        is_colored(
            final(colors)@,
            order::keys(old(path)@),
            visited(
                graph.adjacency(),
                node as int,
                order::keys(old(path)@),
                (Progress { done, found: old(found)@ }),
            ).done,
        ),
    decreases graph.adjacency().len() - old(path)@.len(),
{
    let ghost g = graph.adjacency();
    let ghost before = order::keys(path@);
    let ghost entry = path@;
    let ghost longer = before.push(node as int);
    let ghost p0 = Progress { done, found: found@ };
    proof {
        lemma_path_len(g, longer);
        assert(longer[before.len() as int] == node);
        assert(0 <= longer[before.len() as int] < g.len());
        lemma_visited(g, node as int, before, p0);
        assert(is_sound(g, longer, p0)) by {
            assert forall|i: int| 0 <= i < longer.len() implies !p0.done.contains(
                #[trigger] longer[i],
            ) by {
                if i < before.len() {
                    assert(longer[i] == before[i]);
                }
            }
        }
    }
    colors.set(node, DfsColor::Gray);
    path.push(node);
    assert(order::keys(path@) =~= longer);
    proof {
        assert(is_colored(colors@, longer, done)) by {
            assert forall|u: int| 0 <= u < colors@.len() implies {
                &&& #[trigger] colors@[u] == DfsColor::Gray <==> longer.contains(u)
                &&& colors@[u] == DfsColor::Black <==> done.contains(u)
            } by {
                if u != node {
                    if longer.contains(u) {
                        let i = choose|i: int| 0 <= i < longer.len() && longer[i] == u;
                        assert(before[i] == u);
                    }
                    if before.contains(u) {
                        let i = choose|i: int| 0 <= i < before.len() && before[i] == u;
                        assert(longer[i] == u);
                    }
                }
            }
        }
    }
    let ghost mut p = p0;
    let mut k: usize = 0;
    let edges: &Vec<usize> = &graph.edges[node];
    assert(g[node as int] == order::keys(edges@));
    while k < edges.len()
        invariant
            g == graph.adjacency(),
            is_graph(g),
            node < g.len(),
            edges == graph.edges@[node as int],
            g[node as int] == order::keys(edges@),
            k <= edges@.len(),
            entry == old(path)@,
            path@ == entry.push(node),
            order::keys(path@) == longer,
            is_path(g, longer),
            longer.len() > 0,
            longer.len() == entry.len() + 1,
            longer.last() == node,
            longer.len() <= g.len(),
            is_sound(g, longer, p),
            found@ == p.found,
            colors@.len() == g.len(),
            is_colored(colors@, longer, p.done),
            followed(g, node as int, 0, longer, p0) == followed(g, node as int, k as int, longer, p),
        decreases edges@.len() - k,
    {
        let next: usize = edges[k];
        proof {
            assert(g[node as int][k as int] == next);
            assert(has_edge(g, node as int, next as int));
            assert(0 <= g[node as int][k as int] < g.len());
            lemma_stepped(g, longer, next as int, p);
        }
        let ghost q = stepped(g, longer, next as int, p);
        match colors[next] {
            DfsColor::White => {
                assert(colors@[next as int] == DfsColor::White);
                assert(!longer.contains(next as int));
                assert(!p.done.contains(next as int));
                proof {
                    lemma_path_extends(g, longer, next as int);
                    lemma_path_len(g, longer.push(next as int));
                }
                dfs_collect_cycles(next, graph, colors, path, found, Ghost(p.done));
            },
            DfsColor::Gray => {
                assert(colors@[next as int] == DfsColor::Gray);
                let start: usize = position_in(path, next);
                let cycle = vstd::slice::slice_subrange(path.as_slice(), start, path.len());
                assert(cycle@ =~= path@.skip(start as int));
                found.insert(canonicalize_cycle(cycle));
            },
            DfsColor::Black => {
                assert(colors@[next as int] == DfsColor::Black);
                assert(p.done.contains(next as int));
                assert(!longer.contains(next as int));
            },
        }
        proof {
            p = q;
        }
        k += 1;
    }
    let ghost r = visited(g, node as int, before, p0);
    assert(r.done == p.done.push(node as int));
    colors.set(node, DfsColor::Black);
    path.pop();
    assert(path@ =~= entry);
    proof {
        assert forall|u: int| 0 <= u < colors@.len() implies {
            &&& #[trigger] colors@[u] == DfsColor::Gray <==> before.contains(u)
            &&& colors@[u] == DfsColor::Black <==> r.done.contains(u)
        } by {
            if u == node {
                assert(r.done[p.done.len() as int] == node);
                if before.contains(u) {
                    let i = choose|i: int| 0 <= i < before.len() && before[i] == u;
                    assert(longer[i] == longer[before.len() as int]);
                }
            } else {
                if longer.contains(u) {
                    let i = choose|i: int| 0 <= i < longer.len() && longer[i] == u;
                    assert(before[i] == u);
                }
                if before.contains(u) {
                    let i = choose|i: int| 0 <= i < before.len() && before[i] == u;
                    assert(longer[i] == u);
                }
                if r.done.contains(u) {
                    let i = choose|i: int| 0 <= i < r.done.len() && r.done[i] == u;
                    assert(p.done[i] == u);
                }
                if p.done.contains(u) {
                    let i = choose|i: int| 0 <= i < p.done.len() && p.done[i] == u;
                    assert(r.done[i] == u);
                }
            }
        }
    }
}

/// The name of every node of a cycle, with the first repeated at the end.
pub open spec fn closed_names(names: Seq<Seq<char>>, c: Seq<int>) -> Seq<Seq<char>> {
    let round = if c.len() > 0 {
        c.push(c[0])
    } else {
        c
    };
    round.map_values(|i: int| names[i])
}

/// The contents of a list of lists of strings.
pub open spec fn list_views(lists: Seq<Vec<String>>) -> Seq<Seq<Seq<char>>> {
    lists.map_values(|l: Vec<String>| text::views(l@))
}

/// The names along every cycle.
pub open spec fn named_cycles(
    names: Seq<Seq<char>>,
    cycles: Seq<Seq<int>>,
) -> Seq<Seq<Seq<char>>> {
    cycles.map_values(|c: Seq<int>| closed_names(names, c))
}

/// The cycles of the graph, each as the names along it with the first name
/// repeated at the end.
pub fn find_all_cycles(graph: &Graph) -> (r: Vec<Vec<String>>)
    requires
        graph.wf(),
    ensures
        list_views(r@) == named_cycles(text::views(graph.names@), all_cycles(graph.adjacency())),
{
    let ghost g = graph.adjacency();
    let ghost names = text::views(graph.names@);
    let n: usize = graph.names.len();
    let mut colors: Vec<DfsColor> = Vec::new();
    while colors.len() < n
        invariant
            colors@.len() <= n,
            forall|i: int| 0 <= i < colors@.len() ==> #[trigger] colors@[i] == DfsColor::White,
        decreases n - colors@.len(),
    {
        colors.push(DfsColor::White);
    }
    let mut path: Vec<usize> = Vec::new();
    let mut found: SortedSet<Vec<usize>> = SortedSet::new();
    let ghost p0 = Progress { done: Seq::empty(), found: Seq::empty() };
    let ghost mut p = p0;
    let mut root: usize = 0;
    proof {
        assert(order::keys(path@) =~= Seq::empty());
        assert(is_sound(g, Seq::empty(), p0));
    }
    while root < n
        invariant
            g == graph.adjacency(),
            is_graph(g),
            n == g.len(),
            root <= n,
            path@.len() == 0,
            order::keys(path@) == Seq::<int>::empty(),
            is_sound(g, Seq::empty(), p),
            found@ == p.found,
            colors@.len() == n,
            is_colored(colors@, Seq::empty(), p.done),
            searched(g, 0, p0) == searched(g, root as int, p),
        decreases n - root,
    {
        match colors[root] {
            DfsColor::White => {
                assert(colors@[root as int] == DfsColor::White);
                assert(!p.done.contains(root as int));
                let ghost q = visited(g, root as int, Seq::empty(), p);
                proof {
                    assert(is_path(g, Seq::<int>::empty().push(root as int)));
                    lemma_visited(g, root as int, Seq::empty(), p);
                }
                dfs_collect_cycles(root, graph, &mut colors, &mut path, &mut found, Ghost(p.done));
                proof {
                    p = q;
                }
            },
            DfsColor::Gray => {
                assert(colors@[root as int] == DfsColor::Gray);
                assert(Seq::<int>::empty().contains(root as int));
            },
            DfsColor::Black => {
                assert(colors@[root as int] == DfsColor::Black);
                assert(p.done.contains(root as int));
            },
        }
        root += 1;
    }
    assert(found@ == all_cycles(g));
    proof {
        lemma_reported_cycles(g);
    }
    let mut out: Vec<Vec<String>> = Vec::new();
    let mut i: usize = 0;
    while i < found.len()
        invariant
            g == graph.adjacency(),
            is_graph(g),
            n == g.len(),
            n == graph.names@.len(),
            names == text::views(graph.names@),
            i <= found@.len(),
            found@ == all_cycles(g),
            are_cycles(g, found@),
            list_views(out@) == named_cycles(names, found@).take(i as int),
        decreases found@.len() - i,
    {
        let cycle = found.get(i);
        let ghost c = found@[i as int];
        assert(order::keys(cycle@) == c);
        assert(found@.contains(c));
        assert(is_cycle(g, c));
        let mut named: Vec<String> = Vec::new();
        let mut j: usize = 0;
        while j < cycle.len()
            invariant
                n == g.len(),
                n == graph.names@.len(),
                names == text::views(graph.names@),
                is_cycle(g, c),
                order::keys(cycle@) == c,
                j <= cycle@.len(),
                text::views(named@) == closed_names(names, c).take(j as int),
            decreases cycle@.len() - j,
        {
            assert(has_edge(g, c[j as int], next_on(c, j as int)));
            assert(c[j as int] == cycle@[j as int]);
            let ghost shorter = named@;
            named.push(copied(&graph.names[cycle[j]]));
            assert(text::views(named@) =~= text::views(shorter).push(names[c[j as int]]));
            assert(closed_names(names, c).take(j + 1) =~= closed_names(names, c).take(
                j as int,
            ).push(names[c[j as int]]));
            j += 1;
        }
        let ghost shorter = named@;
        assert(has_edge(g, c[0], next_on(c, 0)));
        assert(c[0] == cycle@[0]);
        named.push(copied(&graph.names[cycle[0]]));
        assert(text::views(named@) =~= text::views(shorter).push(names[c[0]]));
        assert(text::views(named@) =~= closed_names(names, c));
        let ghost fewer = out@;
        out.push(named);
        assert(list_views(out@) =~= list_views(fewer).push(closed_names(names, c)));
        assert(named_cycles(names, found@).take(i + 1) =~= named_cycles(names, found@).take(
            i as int,
        ).push(closed_names(names, c)));
        i += 1;
    }
    assert(named_cycles(names, found@).take(i as int) =~= named_cycles(names, found@));
    out
}

/// Whatever the place where the search enters a cycle, it comes out the same: the
/// cycle from its smallest node on.
pub proof fn lemma_canonical_rotation(a: Seq<int>, b: Seq<int>)
    requires
        b.len() > 0,
        forall|i: int| 0 <= i < a.len() ==> b[0] < #[trigger] a[i],
        forall|i: int| 0 <= i < b.len() ==> b[0] <= #[trigger] b[i],
    ensures
        canonical(a + b) == b + a,
{
    let c = a + b;
    let n = a.len() as int;
    assert(c[n] == b[0]);
    assert forall|i: int| 0 <= i < c.len() implies c[n] <= #[trigger] c[i] by {
        if i >= n {
            assert(c[i] == b[i - n]);
        } else {
            assert(c[i] == a[i]);
        }
    }
    assert forall|i: int| 0 <= i < n implies c[n] < #[trigger] c[i] by {
        assert(c[i] == a[i]);
    }
    assert(is_smallest(c, n));
    let k = choose|k: int| is_smallest(c, k);
    assert(is_smallest(c, k));
    assert(k == n);
    assert(rotated(c, n) =~= b + a);
}

/// A cycle is told by the names of its nodes in their order, and ends with the
/// name that it began with.
pub proof fn lemma_closed_names(names: Seq<Seq<char>>, c: Seq<int>, i: int)
    requires
        0 <= i < c.len(),
    ensures
        closed_names(names, c).len() == c.len() + 1,
        closed_names(names, c)[i] == names[c[i]],
        closed_names(names, c)[c.len() as int] == names[c[0]],
{
}

/// What is told of a graph are cycles of it: every list begins and ends with the
/// same name, and an edge leads from every name to the next.
pub proof fn lemma_cycles_told(graph: Graph, told: Seq<Vec<String>>, k: int, i: int)
    requires
        graph.wf(),
        list_views(told) == named_cycles(
            text::views(graph.names@),
            all_cycles(graph.adjacency()),
        ),
        0 <= k < told.len(),
        0 <= i < told[k]@.len() - 1,
    ensures
        told[k]@.len() >= 2,
        told[k]@[0]@ == told[k]@[told[k]@.len() - 1]@,
        exists|u: int, m: int|
            0 <= u < graph.names@.len() && 0 <= m < graph.edges@[u]@.len()
                && graph.names@[u]@ == told[k]@[i]@
                && #[trigger] graph.edges@[u]@[m] < graph.names@.len()
                && graph.names@[graph.edges@[u]@[m] as int]@ == told[k]@[i + 1]@,
{
    let g = graph.adjacency();
    let names = text::views(graph.names@);
    let all = all_cycles(g);
    lemma_reported_cycles(g);
    assert(list_views(told).len() == told.len());
    assert(named_cycles(names, all).len() == all.len());
    let c = all[k];
    assert(all.contains(c));
    assert(list_views(told)[k] == text::views(told[k]@));
    let t = text::views(told[k]@);
    assert(t == closed_names(names, c));
    assert(t.len() == told[k]@.len());
    assert(t.len() == c.len() + 1);
    assert(t[i] == told[k]@[i]@);
    assert(t[i + 1] == told[k]@[i + 1]@);
    assert(t[0] == told[k]@[0]@);
    assert(t[t.len() - 1] == told[k]@[told[k]@.len() - 1]@);
    lemma_closed_names(names, c, i);
    lemma_closed_names(names, c, 0);
    let u = c[i];
    let v = next_on(c, i);
    assert(has_edge(g, c[i], next_on(c, i)));
    if i + 1 < c.len() {
        lemma_closed_names(names, c, i + 1);
    }
    assert(t[i + 1] == names[v]);
    let m = choose|m: int| 0 <= m < g[u].len() && g[u][m] == v;
    assert(g[u] == order::keys(graph.edges@[u]@));
    assert(g[u].len() == graph.edges@[u]@.len());
    assert(g[u][m] == graph.edges@[u]@[m] as int);
    assert(0 <= g[u][m] < g.len());
    assert(names[u] == graph.names@[u]@);
    assert(names[v] == graph.names@[v]@);
}

} // verus!
