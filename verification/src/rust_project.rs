//! The project description that rust-analyzer reads, assembled from what the
//! build says of every crate, and the findings about the crates that would
//! silently degrade it.
use vstd::prelude::*;
use vstd::hash_map::StringHashMap;
use crate::crate_spec::{CrateSpec, CrateSpecs, CrateType};
use crate::cycles;
use crate::cycles::{find_all_cycles, Graph};
use crate::discovery::{DiscoveryError, ToolchainInfo, FLYCHECK_BINARY_FILENAME};
use crate::order;
use crate::order::{sort_list, SortedSet};
use crate::paths;
use crate::string_map;
use crate::string_map::StringMap;
use crate::text;
use crate::text::{copied, copied_list, join_texts, parse_u32, split_text};

verus! {

// ---------------------------------------------------------------------------
// Diagnostics
// ---------------------------------------------------------------------------

/// Findings about a set of crates.
#[derive(Debug, PartialEq, Eq)]
pub struct AssemblyDiagnostics {
    /// Each entry is the id of a crate and the id of a dependency of it that
    /// is not in the project.
    pub missing_deps: Vec<(String, String)>,
    /// Each cycle is the list of crate ids along it, with the first repeated
    /// at the end: `["ID-a", "ID-b", "ID-a"]`.
    pub cycles: Vec<Vec<String>>,
}

impl Default for AssemblyDiagnostics {
    fn default() -> (r: Self)
        ensures
            r.missing_deps@.len() == 0,
            r.cycles@.len() == 0,
    {
        AssemblyDiagnostics { missing_deps: Vec::new(), cycles: Vec::new() }
    }
}

impl AssemblyDiagnostics {
    /// Whether nothing was found.
    pub fn is_empty(&self) -> (r: bool)
        ensures
            r == (self.missing_deps@.len() == 0 && self.cycles@.len() == 0),
    {
        self.missing_deps.len() == 0 && self.cycles.len() == 0
    }
}

/// The ids of the crates.
pub open spec fn crate_ids(specs: Seq<CrateSpec>) -> Seq<Seq<char>> {
    specs.map_values(|c: CrateSpec| c.crate_id@)
}

/// The position of the last crate with the given id.
pub open spec fn last_with_id(specs: Seq<CrateSpec>, id: Seq<char>) -> Option<int>
    decreases specs.len(),
{
    if specs.len() == 0 {
        None
    } else if specs.last().crate_id@ == id {
        Some(specs.len() - 1)
    } else {
        last_with_id(specs.drop_last(), id)
    }
}

/// The dependencies among `deps` of the crate `id` that name none of `ids`.
pub open spec fn missing_among(
    ids: Seq<Seq<char>>,
    id: Seq<char>,
    deps: Seq<Seq<char>>,
) -> Seq<(Seq<char>, Seq<char>)>
    decreases deps.len(),
{
    if deps.len() == 0 {
        Seq::empty()
    } else {
        let rest = missing_among(ids, id, deps.drop_last());
        if ids.contains(deps.last()) {
            rest
        } else {
            rest.push((id, deps.last()))
        }
    }
}

/// The dependencies of all crates that name none of `ids`, crate by crate.
pub open spec fn all_missing(
    ids: Seq<Seq<char>>,
    specs: Seq<CrateSpec>,
) -> Seq<(Seq<char>, Seq<char>)>
    decreases specs.len(),
{
    if specs.len() == 0 {
        Seq::empty()
    } else {
        all_missing(ids, specs.drop_last()) + missing_among(
            ids,
            specs.last().crate_id@,
            specs.last().deps@,
        )
    }
}

/// The nodes that `deps` lead to, in order; dependencies that are no node are
/// left out.
pub open spec fn targets(names: Seq<Seq<char>>, deps: Seq<Seq<char>>) -> Seq<int>
    decreases deps.len(),
{
    if deps.len() == 0 {
        Seq::empty()
    } else {
        let rest = targets(names, deps.drop_last());
        if names.contains(deps.last()) {
            rest.push(names.index_of(deps.last()))
        } else {
            rest
        }
    }
}

/// The nodes of the dependency graph: the ids, sorted, each once.
pub open spec fn dependency_names(specs: Seq<CrateSpec>) -> Seq<Seq<char>> {
    order::collected(crate_ids(specs))
}

/// The edges of the dependency graph: every id leads to the dependencies of
/// the last crate with that id.
pub open spec fn dependency_edges(specs: Seq<CrateSpec>) -> Seq<Seq<int>> {
    let names = dependency_names(specs);
    Seq::new(names.len(), |i: int| edges_of(names, specs, names[i]))
}

/// The edges out of the node called `id`.
pub open spec fn edges_of(
    names: Seq<Seq<char>>,
    specs: Seq<CrateSpec>,
    id: Seq<char>,
) -> Seq<int> {
    match last_with_id(specs, id) {
        Some(j) => targets(names, specs[j].deps@),
        None => Seq::empty(),
    }
}

proof fn lemma_last_with_id(specs: Seq<CrateSpec>, id: Seq<char>)
    ensures
        match last_with_id(specs, id) {
            Some(j) => 0 <= j < specs.len() && specs[j].crate_id@ == id && forall|k: int|
                j < k < specs.len() ==> (#[trigger] specs[k]).crate_id@ != id,
            None => forall|k: int|
                0 <= k < specs.len() ==> (#[trigger] specs[k]).crate_id@ != id,
        },
    decreases specs.len(),
{
    if specs.len() > 0 && specs.last().crate_id@ != id {
        let d = specs.drop_last();
        lemma_last_with_id(d, id);
        match last_with_id(d, id) {
            Some(j) => {
                assert(d[j] == specs[j]);
                assert forall|k: int| j < k < specs.len() implies (#[trigger] specs[k]).crate_id@
                    != id by {
                    if k < d.len() {
                        assert(d[k] == specs[k]);
                    }
                }
            },
            None => {
                assert forall|k: int| 0 <= k < specs.len() implies (#[trigger] specs[k]).crate_id@
                    != id by {
                    if k < d.len() {
                        assert(d[k] == specs[k]);
                    }
                }
            },
        }
    }
}

proof fn lemma_targets_in_range(names: Seq<Seq<char>>, deps: Seq<Seq<char>>)
    ensures
        forall|k: int|
            0 <= k < targets(names, deps).len() ==> 0 <= #[trigger] targets(names, deps)[k]
                < names.len(),
    decreases deps.len(),
{
    if deps.len() > 0 {
        lemma_targets_in_range(names, deps.drop_last());
        let rest = targets(names, deps.drop_last());
        let t = targets(names, deps);
        assert forall|k: int| 0 <= k < t.len() implies 0 <= #[trigger] t[k] < names.len() by {
            if k < rest.len() {
                assert(t[k] == rest[k]);
            } else {
                let j = choose|j: int| 0 <= j < names.len() && names[j] == deps.last();
                assert(0 <= names.index_of(deps.last()) < names.len());
            }
        }
    }
}

/// Every edge of the dependency graph leads to a node.
pub proof fn lemma_dependency_graph(specs: Seq<CrateSpec>)
    ensures
        order::sorted(dependency_names(specs)),
        cycles::is_graph(dependency_edges(specs)),
{
    order::lemma_collected(crate_ids(specs));
    let names = dependency_names(specs);
    let g = dependency_edges(specs);
    assert forall|u: int, k: int| 0 <= u < g.len() && 0 <= k < g[u].len() implies 0
        <= #[trigger] g[u][k] < g.len() by {
        match last_with_id(specs, names[u]) {
            Some(j) => {
                lemma_targets_in_range(names, specs[j].deps@);
                assert(g[u] == targets(names, specs[j].deps@));
            },
            None => {},
        }
    }
}

/// Whether `index` finds every name among `names` at its position.
spec fn is_index(index: Map<Seq<char>, usize>, names: Seq<Seq<char>>) -> bool {
    forall|id: Seq<char>|
        {
            &&& #[trigger] index.contains_key(id) <==> names.contains(id)
            &&& index.contains_key(id) ==> index[id] == names.index_of(id)
        }
}

/// The position of every name.
fn index_names(names: &SortedSet<String>) -> (index: StringHashMap<usize>)
    ensures
        is_index(index@, names@),
{
    proof {
        use_type_invariant(names);
        order::lemma_sorted_distinct(names@);
    }
    let mut index: StringHashMap<usize> = StringHashMap::new();
    let mut i: usize = 0;
    while i < names.len()
        invariant
            i <= names@.len(),
            names@.no_duplicates(),
            forall|id: Seq<char>|
                {
                    &&& #[trigger] index@.contains_key(id) <==> names@.take(i as int).contains(id)
                    &&& index@.contains_key(id) ==> 0 <= index@[id] < i && names@[index@[id] as int]
                        == id
                },
        decreases names@.len() - i,
    {
        let ghost before = index@;
        index.insert(copied(names.get(i)), i);
        proof {
            let name = names@[i as int];
            let shorter = names@.take(i as int);
            let longer = names@.take(i + 1);
            assert forall|id: Seq<char>|
                {
                    &&& #[trigger] index@.contains_key(id) <==> longer.contains(id)
                    &&& index@.contains_key(id) ==> 0 <= index@[id] < i + 1
                        && names@[index@[id] as int] == id
                } by {
                assert(before.contains_key(id) <==> shorter.contains(id));
                if shorter.contains(id) {
                    let k = choose|k: int| 0 <= k < shorter.len() && shorter[k] == id;
                    assert(longer[k] == id);
                }
                if longer.contains(id) {
                    let k = choose|k: int| 0 <= k < longer.len() && longer[k] == id;
                    if k < i {
                        assert(shorter[k] == id);
                    }
                }
                assert(longer[i as int] == name);
            }
        }
        i += 1;
    }
    proof {
        assert(names@.take(i as int) =~= names@);
        assert forall|id: Seq<char>|
            {
                &&& #[trigger] index@.contains_key(id) <==> names@.contains(id)
                &&& index@.contains_key(id) ==> index@[id] == names@.index_of(id)
            } by {
            if index@.contains_key(id) {
                let k = names@.index_of(id);
                assert(names@[k] == id);
                assert(names@[index@[id] as int] == id);
            }
        }
    }
    index
}

/// The ids of the crates, sorted, each once.
fn sorted_ids(crate_specs: &CrateSpecs) -> (names: SortedSet<String>)
    ensures
        names@ == dependency_names(crate_specs.values()),
{
    let ghost specs = crate_specs.values();
    proof {
        crate_specs.lemma_values();
    }
    let mut names: SortedSet<String> = SortedSet::new();
    let mut i: usize = 0;
    assert(crate_ids(specs).take(0) =~= Seq::empty());
    while i < crate_specs.len()
        invariant
            specs == crate_specs.values(),
            specs.len() == crate_specs@.len(),
            i <= specs.len(),
            names@ == order::collected(crate_ids(specs).take(i as int)),
        decreases specs.len() - i,
    {
        names.insert(copied(&crate_specs.get(i).crate_id));
        assert(crate_ids(specs).take(i + 1).drop_last() =~= crate_ids(specs).take(i as int));
        i += 1;
    }
    assert(crate_ids(specs).take(i as int) =~= crate_ids(specs));
    names
}

/// The dependencies that name no crate of the set, crate by crate.
fn collect_missing(crate_specs: &CrateSpecs, index: &StringHashMap<usize>, Ghost(ids): Ghost<
    Seq<Seq<char>>,
>) -> (r: Vec<(String, String)>)
    requires
        is_index(index@, ids),
    ensures
        order::keys(r@) == all_missing(ids, crate_specs.values()),
{
    let ghost specs = crate_specs.values();
    proof {
        crate_specs.lemma_values();
    }
    let mut r: Vec<(String, String)> = Vec::new();
    let mut i: usize = 0;
    assert(order::keys(r@) =~= Seq::empty());
    assert(specs.take(0) =~= Seq::empty());
    while i < crate_specs.len()
        invariant
            is_index(index@, ids),
            specs == crate_specs.values(),
            specs.len() == crate_specs@.len(),
            i <= specs.len(),
            order::keys(r@) == all_missing(ids, specs.take(i as int)),
        decreases specs.len() - i,
    {
        let c = crate_specs.get(i);
        let ghost so_far = order::keys(r@);
        let ghost deps = c.deps@;
        let mut j: usize = 0;
        proof {
            assert(deps.take(0) =~= Seq::empty());
            assert(so_far + missing_among(ids, c.crate_id@, deps.take(0)) =~= so_far);
        }
        while j < c.deps.len()
            invariant
                is_index(index@, ids),
                deps == c.deps@,
                j <= deps.len(),
                order::keys(r@) == so_far + missing_among(ids, c.crate_id@, deps.take(j as int)),
            decreases deps.len() - j,
        {
            let dep = c.deps.get(j);
            let ghost shorter = r@;
            assert(deps.take(j + 1).drop_last() =~= deps.take(j as int));
            assert(deps.take(j + 1).last() == dep@);
            assert(index@.contains_key(dep@) <==> ids.contains(dep@));
            if !index.contains_key(dep.as_str()) {
                r.push((copied(&c.crate_id), copied(dep)));
                assert(order::keys(r@) =~= order::keys(shorter).push((c.crate_id@, dep@)));
                assert(order::keys(r@) =~= so_far + missing_among(
                    ids,
                    c.crate_id@,
                    deps.take(j + 1),
                ));
            }
            j += 1;
        }
        proof {
            assert(deps.take(j as int) =~= deps);
            assert(specs.take(i + 1).drop_last() =~= specs.take(i as int));
            assert(specs.take(i + 1).last() == specs[i as int]);
        }
        i += 1;
    }
    assert(specs.take(i as int) =~= specs);
    r
}

/// The nodes that the dependencies lead to.
fn find_targets(deps: &SortedSet<String>, index: &StringHashMap<usize>, Ghost(names): Ghost<
    Seq<Seq<char>>,
>) -> (r: Vec<usize>)
    requires
        is_index(index@, names),
    ensures
        order::keys(r@) == targets(names, deps@),
{
    let mut r: Vec<usize> = Vec::new();
    let mut j: usize = 0;
    assert(order::keys(r@) =~= targets(names, deps@.take(0)));
    while j < deps.len()
        invariant
            is_index(index@, names),
            j <= deps@.len(),
            order::keys(r@) == targets(names, deps@.take(j as int)),
        decreases deps@.len() - j,
    {
        let ghost shorter = r@;
        let dep = deps.get(j);
        assert(deps@.take(j + 1).drop_last() =~= deps@.take(j as int));
        assert(deps@.take(j + 1).last() == dep@);
        assert(index@.contains_key(dep@) <==> names.contains(dep@));
        match index.get(dep.as_str()) {
            Some(node) => {
                r.push(*node);
                assert(order::keys(r@) =~= order::keys(shorter).push(names.index_of(dep@)));
            },
            None => {},
        }
        j += 1;
    }
    assert(deps@.take(j as int) =~= deps@);
    r
}

/// The dependency graph of the crates.
fn dependency_graph(crate_specs: &CrateSpecs, names: SortedSet<String>, index: &StringHashMap<
    usize,
>) -> (graph: Graph)
    requires
        names@ == dependency_names(crate_specs.values()),
        is_index(index@, names@),
    ensures
        graph.wf(),
        text::views(graph.names@) == names@,
        graph.adjacency() == dependency_edges(crate_specs.values()),
{
    let ghost specs = crate_specs.values();
    let ghost ids = names@;
    proof {
        crate_specs.lemma_values();
        lemma_dependency_graph(specs);
        order::lemma_collected(crate_ids(specs));
    }
    let n: usize = names.len();
    let mut edges: Vec<Vec<usize>> = Vec::new();
    while edges.len() < n
        invariant
            edges@.len() <= n,
            forall|u: int| 0 <= u < edges@.len() ==> (#[trigger] edges@[u])@.len() == 0,
        decreases n - edges@.len(),
    {
        edges.push(Vec::new());
    }
    proof {
        assert forall|u: int| 0 <= u < n implies order::keys((#[trigger] edges@[u])@) == edges_of(
            ids,
            specs.take(0),
            ids[u],
        ) by {
            assert(order::keys(edges@[u]@) =~= Seq::empty());
        }
    }
    let mut i: usize = 0;
    while i < crate_specs.len()
        invariant
            is_index(index@, ids),
            ids == dependency_names(specs),
            specs == crate_specs.values(),
            specs.len() == crate_specs@.len(),
            i <= specs.len(),
            n == ids.len(),
            edges@.len() == n,
            forall|id: Seq<char>|
                #[trigger] ids.contains(id) <==> crate_ids(specs).contains(id),
            forall|u: int|
                0 <= u < n ==> order::keys((#[trigger] edges@[u])@) == edges_of(
                    ids,
                    specs.take(i as int),
                    ids[u],
                ),
            order::sorted(ids),
        decreases specs.len() - i,
    {
        let c = crate_specs.get(i);
        proof {
            assert(crate_ids(specs)[i as int] == c.crate_id@);
            assert(crate_ids(specs).contains(c.crate_id@));
            assert(ids.contains(c.crate_id@));
            assert(index@.contains_key(c.crate_id@));
            assert(specs.take(i + 1).drop_last() =~= specs.take(i as int));
            assert(specs.take(i + 1).last() == specs[i as int]);
        }
        let found = find_targets(&c.deps, index, Ghost(ids));
        match index.get(c.crate_id.as_str()) {
            Some(node) => {
                let ghost earlier = edges@;
                proof {
                    let k = choose|k: int| 0 <= k < ids.len() && ids[k] == c.crate_id@;
                    assert(ids[*node as int] == c.crate_id@);
                    assert(*node < n);
                }
                edges.set(*node, found);
                proof {
                    order::lemma_sorted_distinct(ids);
                    assert forall|u: int| 0 <= u < n implies order::keys((#[trigger] edges@[u])@)
                        == edges_of(ids, specs.take(i + 1), ids[u]) by {
                        if u != *node {
                            assert(ids[u] != c.crate_id@);
                            assert(edges@[u] == earlier[u]);
                            lemma_last_with_id(specs.take(i as int), ids[u]);
                        }
                    }
                }
            },
            None => {
                assert(false);
            },
        }
        i += 1;
    }
    assert(specs.take(i as int) =~= specs);
    let list = names.into_list();
    assert(text::views(list@) =~= order::keys(list@));
    let graph = Graph { names: list, edges };
    assert(graph.adjacency() =~= dependency_edges(specs));
    graph
}

/// Whether `d` holds the findings about `specs`: the missing dependencies,
/// sorted, and the cycles of the dependency graph.
pub open spec fn is_diagnosis(d: AssemblyDiagnostics, specs: Seq<CrateSpec>) -> bool {
    &&& order::is_sorting(
        order::keys(d.missing_deps@),
        all_missing(dependency_names(specs), specs),
    )
    &&& cycles::list_views(d.cycles@) == cycles::named_cycles(
        dependency_names(specs),
        cycles::all_cycles(dependency_edges(specs)),
    )
}

/// Looks for what would silently degrade the project: dependencies that are
/// not in the set, and dependency cycles. Only edges between known crates
/// count for cycles, so that a missing dependency is reported once.
pub fn diagnose(crate_specs: &CrateSpecs) -> (r: AssemblyDiagnostics)
    ensures
        is_diagnosis(r, crate_specs.values()),
{
    let names = sorted_ids(crate_specs);
    let index = index_names(&names);
    let missing = collect_missing(crate_specs, &index, Ghost(names@));
    let missing_deps = sort_list(missing);
    let graph = dependency_graph(crate_specs, names, &index);
    let found = find_all_cycles(&graph);
    AssemblyDiagnostics { missing_deps, cycles: found }
}

/// Whether `specs` has a crate with this id and these dependencies.
pub open spec fn has_crate(specs: Seq<CrateSpec>, id: Seq<char>, deps: Seq<Seq<char>>) -> bool {
    exists|j: int|
        0 <= j < specs.len() && (#[trigger] specs[j]).crate_id@ == id && specs[j].deps@ == deps
}

/// Whether the crates of `s` and of `t` have the same ids, and the same
/// dependencies under each.
pub open spec fn same_dependencies(s: Seq<CrateSpec>, t: Seq<CrateSpec>) -> bool {
    &&& forall|i: int|
        0 <= i < s.len() ==> has_crate(t, (#[trigger] s[i]).crate_id@, s[i].deps@)
    &&& forall|i: int|
        0 <= i < t.len() ==> has_crate(s, (#[trigger] t[i]).crate_id@, t[i].deps@)
}

/// Whether no two crates have the same id.
pub open spec fn distinct_ids(specs: Seq<CrateSpec>) -> bool {
    forall|i: int, j: int|
        0 <= i < j < specs.len() ==> (#[trigger] specs[i]).crate_id@ != (
        #[trigger] specs[j]).crate_id@
}

proof fn lemma_all_missing_without(ids: Seq<Seq<char>>, specs: Seq<CrateSpec>, j: int)
    requires
        0 <= j < specs.len(),
    ensures
        all_missing(ids, specs).to_multiset() == all_missing(
            ids,
            specs.remove(j),
        ).to_multiset().add(
            missing_among(ids, specs[j].crate_id@, specs[j].deps@).to_multiset(),
        ),
    decreases specs.len(),
{
    let d = specs.drop_last();
    let last = missing_among(ids, specs.last().crate_id@, specs.last().deps@);
    vstd::seq_lib::lemma_multiset_commutative(all_missing(ids, d), last);
    if j == specs.len() - 1 {
        assert(specs.remove(j) =~= d);
    } else {
        lemma_all_missing_without(ids, d, j);
        let r = specs.remove(j);
        assert(r.drop_last() =~= d.remove(j));
        assert(r.last() == specs.last());
        vstd::seq_lib::lemma_multiset_commutative(all_missing(ids, d.remove(j)), last);
        assert(all_missing(ids, specs).to_multiset() =~= all_missing(ids, r).to_multiset().add(
            missing_among(ids, specs[j].crate_id@, specs[j].deps@).to_multiset(),
        ));
    }
}

proof fn lemma_same_missing(ids: Seq<Seq<char>>, s: Seq<CrateSpec>, t: Seq<CrateSpec>)
    requires
        distinct_ids(s),
        distinct_ids(t),
        same_dependencies(s, t),
    ensures
        all_missing(ids, s).to_multiset() == all_missing(ids, t).to_multiset(),
    decreases s.len(),
{
    if s.len() == 0 {
        if t.len() > 0 {
            assert(has_crate(s, t[0].crate_id@, t[0].deps@));
        }
    } else {
        let c = s.last();
        let d = s.drop_last();
        assert(has_crate(t, s[s.len() - 1].crate_id@, s[s.len() - 1].deps@));
        let j = choose|j: int|
            0 <= j < t.len() && (#[trigger] t[j]).crate_id@ == c.crate_id@ && t[j].deps@
                == c.deps@;
        let r = t.remove(j);
        assert forall|i: int, k: int| 0 <= i < k < r.len() implies (#[trigger] r[i]).crate_id@ != (
        #[trigger] r[k]).crate_id@ by {
            let i0 = if i < j { i } else { i + 1 };
            let k0 = if k < j { k } else { k + 1 };
            assert(r[i] == t[i0] && r[k] == t[k0]);
        }
        assert forall|i: int| 0 <= i < d.len() implies has_crate(
            r,
            (#[trigger] d[i]).crate_id@,
            d[i].deps@,
        ) by {
            assert(has_crate(t, s[i].crate_id@, s[i].deps@));
            let k = choose|k: int|
                0 <= k < t.len() && (#[trigger] t[k]).crate_id@ == s[i].crate_id@ && t[k].deps@
                    == s[i].deps@;
            assert(s[i].crate_id@ != s[s.len() - 1].crate_id@);
            assert(r[if k < j { k } else { k - 1 }] == t[k]);
        }
        assert forall|i: int| 0 <= i < r.len() implies has_crate(
            d,
            (#[trigger] r[i]).crate_id@,
            r[i].deps@,
        ) by {
            let i0 = if i < j { i } else { i + 1 };
            assert(r[i] == t[i0]);
            assert(has_crate(s, t[i0].crate_id@, t[i0].deps@));
            let k = choose|k: int|
                0 <= k < s.len() && (#[trigger] s[k]).crate_id@ == t[i0].crate_id@ && s[k].deps@
                    == t[i0].deps@;
            assert(t[i0].crate_id@ != t[j].crate_id@);
            assert(d[k] == s[k]);
        }
        lemma_same_missing(ids, d, r);
        lemma_all_missing_without(ids, t, j);
        vstd::seq_lib::lemma_multiset_commutative(
            all_missing(ids, d),
            missing_among(ids, c.crate_id@, c.deps@),
        );
    }
}

proof fn lemma_same_edges(s: Seq<CrateSpec>, t: Seq<CrateSpec>)
    requires
        distinct_ids(s),
        distinct_ids(t),
        same_dependencies(s, t),
    ensures
        dependency_names(s) == dependency_names(t),
        dependency_edges(s) == dependency_edges(t),
{
    let names = dependency_names(s);
    order::lemma_collected(crate_ids(s));
    order::lemma_collected(crate_ids(t));
    assert forall|id: Seq<char>| crate_ids(s).contains(id) == crate_ids(t).contains(id) by {
        if crate_ids(s).contains(id) {
            let i = choose|i: int| 0 <= i < s.len() && crate_ids(s)[i] == id;
            assert(has_crate(t, s[i].crate_id@, s[i].deps@));
            let j = choose|j: int|
                0 <= j < t.len() && (#[trigger] t[j]).crate_id@ == s[i].crate_id@ && t[j].deps@
                    == s[i].deps@;
            assert(crate_ids(t)[j] == id);
        }
        if crate_ids(t).contains(id) {
            let i = choose|i: int| 0 <= i < t.len() && crate_ids(t)[i] == id;
            assert(has_crate(s, t[i].crate_id@, t[i].deps@));
            let j = choose|j: int|
                0 <= j < s.len() && (#[trigger] s[j]).crate_id@ == t[i].crate_id@ && s[j].deps@
                    == t[i].deps@;
            assert(crate_ids(s)[j] == id);
        }
    }
    order::lemma_sorted_unique(names, dependency_names(t));
    assert forall|u: int| 0 <= u < names.len() implies edges_of(names, s, names[u]) == edges_of(
        names,
        t,
        names[u],
    ) by {
        let id = names[u];
        lemma_last_with_id(s, id);
        lemma_last_with_id(t, id);
        assert(names.contains(id));
        assert(crate_ids(s).contains(id));
        let k = choose|k: int| 0 <= k < s.len() && crate_ids(s)[k] == id;
        assert(s[k].crate_id@ == id);
        let i = last_with_id(s, id)->0;
        assert(has_crate(t, s[i].crate_id@, s[i].deps@));
        let j = choose|j: int|
            0 <= j < t.len() && (#[trigger] t[j]).crate_id@ == s[i].crate_id@ && t[j].deps@
                == s[i].deps@;
        assert(last_with_id(t, id) is Some);
        assert(t[last_with_id(t, id)->0].crate_id@ == t[j].crate_id@);
        assert(last_with_id(t, id)->0 == j);
    }
    assert(dependency_edges(s) =~= dependency_edges(t));
}

/// The findings depend on the ids and the dependencies alone: two sets of
/// crates, each without an id that occurs twice, that agree in these get the
/// same findings, whatever else they hold and however they are ordered.
pub proof fn lemma_diagnosis_of_dependencies(
    s: Seq<CrateSpec>,
    t: Seq<CrateSpec>,
    d: AssemblyDiagnostics,
    e: AssemblyDiagnostics,
)
    requires
        distinct_ids(s),
        distinct_ids(t),
        same_dependencies(s, t),
        is_diagnosis(d, s),
        is_diagnosis(e, t),
    ensures
        order::keys(d.missing_deps@) == order::keys(e.missing_deps@),
        cycles::list_views(d.cycles@) == cycles::list_views(e.cycles@),
{
    lemma_same_edges(s, t);
    lemma_same_missing(dependency_names(s), s, t);
    order::lemma_sorting_unique(order::keys(d.missing_deps@), order::keys(e.missing_deps@));
}

/// One line about a missing dependency.
pub open spec fn missing_line(pair: (Seq<char>, Seq<char>)) -> Seq<char> {
    "missing dep: crate "@ + pair.0 + " references "@ + pair.1
        + " which is not in the project (target may be a non-Rust dep, filtered, or its spec generation failed)\n"@
}

/// One line about a cycle.
pub open spec fn cycle_line(cycle: Seq<Seq<char>>) -> Seq<char> {
    "dep cycle: "@ + text::joined_with(cycle, " → "@) + "\n"@
}

/// The lines about missing dependencies.
pub open spec fn missing_report(pairs: Seq<(Seq<char>, Seq<char>)>) -> Seq<char>
    decreases pairs.len(),
{
    if pairs.len() == 0 {
        Seq::empty()
    } else {
        missing_report(pairs.drop_last()) + missing_line(pairs.last())
    }
}

/// The lines about cycles.
pub open spec fn cycle_report(found: Seq<Seq<Seq<char>>>) -> Seq<char>
    decreases found.len(),
{
    if found.len() == 0 {
        Seq::empty()
    } else {
        cycle_report(found.drop_last()) + cycle_line(found.last())
    }
}

/// The report of the findings: the missing dependencies first, then the
/// cycles.
pub open spec fn report_of(d: AssemblyDiagnostics) -> Seq<char> {
    missing_report(order::keys(d.missing_deps@)) + cycle_report(cycles::list_views(d.cycles@))
}

/// A report for people, one line per finding: the missing dependencies first,
/// then the cycles.
pub fn format_diagnostics(diag: &AssemblyDiagnostics) -> (r: String)
    ensures
        r@ == report_of(*diag),
{
    let ghost pairs = order::keys(diag.missing_deps@);
    let ghost found = cycles::list_views(diag.cycles@);
    let mut out = String::new();
    let mut i: usize = 0;
    assert(out@ =~= missing_report(pairs.take(0)));
    while i < diag.missing_deps.len()
        invariant
            i <= diag.missing_deps@.len(),
            pairs == order::keys(diag.missing_deps@),
            out@ == missing_report(pairs.take(i as int)),
        decreases diag.missing_deps@.len() - i,
    {
        let ghost before = out@;
        let pair = &diag.missing_deps[i];
        out.append("missing dep: crate ");
        out.append(pair.0.as_str());
        out.append(" references ");
        out.append(pair.1.as_str());
        out.append(
            " which is not in the project (target may be a non-Rust dep, filtered, or its spec generation failed)\n",
        );
        assert(out@ =~= before + missing_line((pair.0@, pair.1@)));
        assert(pairs.take(i + 1).drop_last() =~= pairs.take(i as int));
        assert(pairs.take(i + 1).last() == (pair.0@, pair.1@));
        i += 1;
    }
    assert(pairs.take(i as int) =~= pairs);
    let ghost head = out@;
    let mut j: usize = 0;
    assert(out@ =~= head + cycle_report(found.take(0)));
    while j < diag.cycles.len()
        invariant
            j <= diag.cycles@.len(),
            found == cycles::list_views(diag.cycles@),
            out@ == head + cycle_report(found.take(j as int)),
        decreases diag.cycles@.len() - j,
    {
        let ghost before = out@;
        out.append("dep cycle: ");
        out.append(join_texts(&diag.cycles[j], " → ").as_str());
        out.append("\n");
        assert(found.take(j + 1).drop_last() =~= found.take(j as int));
        assert(found.take(j + 1).last() == text::views(diag.cycles@[j as int]@));
        assert(out@ =~= before + cycle_line(found[j as int]));
        assert(out@ =~= head + cycle_report(found.take(j + 1)));
        j += 1;
    }
    assert(found.take(j as int) =~= found);
    out
}

// ---------------------------------------------------------------------------
// What the diagnostics mean
// ---------------------------------------------------------------------------

proof fn lemma_missing_among(
    ids: Seq<Seq<char>>,
    id: Seq<char>,
    deps: Seq<Seq<char>>,
    pair: (Seq<char>, Seq<char>),
)
    ensures
        missing_among(ids, id, deps).contains(pair) <==> (pair.0 == id && deps.contains(pair.1)
            && !ids.contains(pair.1)),
    decreases deps.len(),
{
    let m = missing_among(ids, id, deps);
    if deps.len() > 0 {
        let d = deps.drop_last();
        let rest = missing_among(ids, id, d);
        lemma_missing_among(ids, id, d, pair);
        if deps.contains(pair.1) {
            let k = choose|k: int| 0 <= k < deps.len() && deps[k] == pair.1;
            if k < d.len() {
                assert(d[k] == pair.1);
            }
        }
        if d.contains(pair.1) {
            let k = choose|k: int| 0 <= k < d.len() && d[k] == pair.1;
            assert(deps[k] == pair.1);
        }
        if rest.contains(pair) {
            let k = choose|k: int| 0 <= k < rest.len() && rest[k] == pair;
            assert(m[k] == pair);
        }
        if m.contains(pair) {
            let k = choose|k: int| 0 <= k < m.len() && m[k] == pair;
            if k < rest.len() {
                assert(rest[k] == pair);
            } else {
                assert(deps[deps.len() - 1] == pair.1);
            }
        }
        if pair == (id, deps.last()) && !ids.contains(deps.last()) {
            assert(m[rest.len() as int] == pair);
        }
    }
}

/// Whether a crate of the set has the id `pair.0` and the dependency `pair.1`,
/// and no crate has that dependency's id.
pub open spec fn is_missing(specs: Seq<CrateSpec>, pair: (Seq<char>, Seq<char>)) -> bool {
    &&& exists|k: int|
        0 <= k < specs.len() && (#[trigger] specs[k]).crate_id@ == pair.0
            && specs[k].deps@.contains(pair.1)
    &&& forall|k: int| 0 <= k < specs.len() ==> (#[trigger] specs[k]).crate_id@ != pair.1
}

proof fn lemma_all_missing(
    ids: Seq<Seq<char>>,
    specs: Seq<CrateSpec>,
    pair: (Seq<char>, Seq<char>),
)
    ensures
        all_missing(ids, specs).contains(pair) <==> (!ids.contains(pair.1) && exists|k: int|
            0 <= k < specs.len() && (#[trigger] specs[k]).crate_id@ == pair.0
                && specs[k].deps@.contains(pair.1)),
    decreases specs.len(),
{
    if specs.len() > 0 {
        let d = specs.drop_last();
        let c = specs.last();
        let a = all_missing(ids, d);
        let b = missing_among(ids, c.crate_id@, c.deps@);
        let m = all_missing(ids, specs);
        lemma_all_missing(ids, d, pair);
        lemma_missing_among(ids, c.crate_id@, c.deps@, pair);
        if a.contains(pair) {
            let k = choose|k: int| 0 <= k < a.len() && a[k] == pair;
            assert(m[k] == pair);
            let j = choose|j: int|
                0 <= j < d.len() && (#[trigger] d[j]).crate_id@ == pair.0 && d[j].deps@.contains(
                    pair.1,
                );
            assert(specs[j] == d[j]);
        }
        if b.contains(pair) {
            let k = choose|k: int| 0 <= k < b.len() && b[k] == pair;
            assert(m[a.len() + k] == pair);
            assert(specs[specs.len() - 1] == c);
        }
        if m.contains(pair) {
            let k = choose|k: int| 0 <= k < m.len() && m[k] == pair;
            if k < a.len() {
                assert(a[k] == pair);
            } else {
                assert(b[k - a.len()] == pair);
            }
        }
        if !ids.contains(pair.1) && exists|k: int|
            0 <= k < specs.len() && (#[trigger] specs[k]).crate_id@ == pair.0
                && specs[k].deps@.contains(pair.1) {
            let k = choose|k: int|
                0 <= k < specs.len() && (#[trigger] specs[k]).crate_id@ == pair.0
                    && specs[k].deps@.contains(pair.1);
            if k < d.len() {
                assert(d[k] == specs[k]);
            }
        }
    }
}

proof fn lemma_known_ids(specs: Seq<CrateSpec>, id: Seq<char>)
    ensures
        dependency_names(specs).contains(id) <==> exists|k: int|
            0 <= k < specs.len() && (#[trigger] specs[k]).crate_id@ == id,
{
    order::lemma_collected(crate_ids(specs));
    let ids = crate_ids(specs);
    assert(dependency_names(specs).contains(id) <==> ids.contains(id));
    if ids.contains(id) {
        let k = choose|k: int| 0 <= k < ids.len() && ids[k] == id;
        assert(specs[k].crate_id@ == id);
    }
    if exists|k: int| 0 <= k < specs.len() && (#[trigger] specs[k]).crate_id@ == id {
        let k = choose|k: int| 0 <= k < specs.len() && (#[trigger] specs[k]).crate_id@ == id;
        assert(ids[k] == id);
    }
}

/// A dependency is reported as missing exactly when a crate has it and no
/// crate of the set is it.
pub proof fn lemma_missing_reported(specs: Seq<CrateSpec>, pair: (Seq<char>, Seq<char>))
    ensures
        all_missing(dependency_names(specs), specs).contains(pair) <==> is_missing(specs, pair),
{
    lemma_all_missing(dependency_names(specs), specs, pair);
    lemma_known_ids(specs, pair.1);
}

proof fn lemma_targets(names: Seq<Seq<char>>, deps: Seq<Seq<char>>, v: int)
    requires
        names.no_duplicates(),
        0 <= v < names.len(),
    ensures
        targets(names, deps).contains(v) <==> deps.contains(names[v]),
    decreases deps.len(),
{
    let t = targets(names, deps);
    if deps.len() > 0 {
        let d = deps.drop_last();
        let rest = targets(names, d);
        lemma_targets(names, d, v);
        if rest.contains(v) {
            let k = choose|k: int| 0 <= k < rest.len() && rest[k] == v;
            assert(t[k] == v);
        }
        if d.contains(names[v]) {
            let k = choose|k: int| 0 <= k < d.len() && d[k] == names[v];
            assert(deps[k] == names[v]);
        }
        if deps.contains(names[v]) {
            let k = choose|k: int| 0 <= k < deps.len() && deps[k] == names[v];
            if k < d.len() {
                assert(d[k] == names[v]);
            } else {
                assert(names.contains(deps.last()));
                assert(names[names.index_of(deps.last())] == names[v]);
                assert(t[rest.len() as int] == v);
            }
        }
        if t.contains(v) {
            let k = choose|k: int| 0 <= k < t.len() && t[k] == v;
            if k < rest.len() {
                assert(rest[k] == v);
            } else {
                assert(names[v] == deps.last());
                assert(deps[deps.len() - 1] == names[v]);
            }
        }
    }
}

/// Whether the last crate with the id `from` depends on `to`.
pub open spec fn depends_on(specs: Seq<CrateSpec>, from: Seq<char>, to: Seq<char>) -> bool {
    last_with_id(specs, from) matches Some(j) && specs[j].deps@.contains(to)
}

/// The edges of the dependency graph are the dependencies between crates of
/// the set.
pub proof fn lemma_dependency_edge(specs: Seq<CrateSpec>, u: int, v: int)
    requires
        0 <= u < dependency_names(specs).len(),
        0 <= v < dependency_names(specs).len(),
    ensures
        cycles::has_edge(dependency_edges(specs), u, v) <==> depends_on(
            specs,
            dependency_names(specs)[u],
            dependency_names(specs)[v],
        ),
{
    let names = dependency_names(specs);
    order::lemma_collected(crate_ids(specs));
    order::lemma_sorted_distinct(names);
    let g = dependency_edges(specs);
    assert(g[u] == edges_of(names, specs, names[u]));
    match last_with_id(specs, names[u]) {
        Some(j) => {
            lemma_targets(names, specs[j].deps@, v);
        },
        None => {},
    }
}

/// Every reported cycle is a chain of dependencies that returns to where it
/// began, and begins with its smallest id.
pub proof fn lemma_reported_names(specs: Seq<CrateSpec>, c: Seq<int>, i: int)
    requires
        cycles::all_cycles(dependency_edges(specs)).contains(c),
        0 <= i < c.len(),
    ensures
        ({
            let along = cycles::closed_names(dependency_names(specs), c);
            &&& along.len() == c.len() + 1
            &&& along[along.len() - 1] == along[0]
            &&& depends_on(specs, along[i], along[i + 1])
            &&& along[i] == along[0] || order::Ordered::before(along[0], along[i])
        }),
{
    let names = dependency_names(specs);
    let g = dependency_edges(specs);
    lemma_dependency_graph(specs);
    cycles::lemma_reported_cycles(g);
    assert(cycles::is_cycle(g, c) && cycles::is_canonical(c));
    let u = c[i];
    let v = cycles::next_on(c, i);
    assert(cycles::has_edge(g, c[i], cycles::next_on(c, i)));
    let k = choose|k: int| 0 <= k < g[u].len() && g[u][k] == v;
    assert(0 <= g[u][k] < g.len());
    lemma_dependency_edge(specs, u, v);
    assert(cycles::has_edge(g, c[0], cycles::next_on(c, 0)));
    assert(c[0] <= c[i]);
    if c[0] < c[i] {
        assert(order::Ordered::before(names[c[0]], names[c[i]]));
    }
}

/// No cycle is reported exactly when no chain of dependencies returns to where
/// it began.
pub proof fn lemma_no_cycle_reported(specs: Seq<CrateSpec>)
    ensures
        cycles::all_cycles(dependency_edges(specs)).len() == 0 <==> forall|w: Seq<Seq<char>>|
            !#[trigger] is_dependency_loop(specs, w),
{
    let names = dependency_names(specs);
    let g = dependency_edges(specs);
    lemma_dependency_graph(specs);
    cycles::lemma_acyclic(g);
    if exists|w: Seq<int>| #[trigger] cycles::is_closed_walk(g, w) {
        let w = choose|w: Seq<int>| #[trigger] cycles::is_closed_walk(g, w);
        let named = w.map_values(|u: int| names[u]);
        assert(is_dependency_loop(specs, named)) by {
            assert forall|i: int| 0 <= i < named.len() implies #[trigger] is_link(
                specs,
                named,
                i,
            ) by {
                assert(cycles::has_edge(g, w[i], cycles::next_on(w, i)));
                let k = choose|k: int|
                    0 <= k < g[w[i]].len() && g[w[i]][k] == cycles::next_on(w, i);
                assert(0 <= g[w[i]][k] < g.len());
                lemma_dependency_edge(specs, w[i], cycles::next_on(w, i));
                assert(names[w[i]] == named[i]);
            }
        }
    }
    if exists|w: Seq<Seq<char>>| #[trigger] is_dependency_loop(specs, w) {
        let w = choose|w: Seq<Seq<char>>| #[trigger] is_dependency_loop(specs, w);
        let nodes = w.map_values(|id: Seq<char>| names.index_of(id));
        assert(cycles::is_closed_walk(g, nodes)) by {
            assert forall|i: int| 0 <= i < nodes.len() implies cycles::has_edge(
                g,
                nodes[i],
                #[trigger] cycles::next_on(nodes, i),
            ) by {
                let j = if i + 1 < w.len() {
                    i + 1
                } else {
                    0
                };
                assert(is_link(specs, w, i) && is_link(specs, w, j));
                assert(names.contains(w[i]) && names.contains(w[j]));
                assert(names[nodes[i]] == w[i]);
                assert(names[nodes[j]] == w[j]);
                lemma_dependency_edge(specs, nodes[i], nodes[j]);
            }
        }
    }
}

/// The id after position `i` on the way round `w`.
pub open spec fn next_name(w: Seq<Seq<char>>, i: int) -> Seq<char> {
    if i + 1 < w.len() {
        w[i + 1]
    } else {
        w[0]
    }
}

/// Whether position `i` of `w` is a crate of the set that depends on the next
/// one on the way round.
pub open spec fn is_link(specs: Seq<CrateSpec>, w: Seq<Seq<char>>, i: int) -> bool {
    &&& dependency_names(specs).contains(w[i])
    &&& depends_on(specs, w[i], next_name(w, i))
}

/// Whether `w` is a chain of dependencies between crates of the set that
/// returns to where it began.
pub open spec fn is_dependency_loop(specs: Seq<CrateSpec>, w: Seq<Seq<char>>) -> bool {
    &&& w.len() > 0
    &&& forall|i: int|
        0 <= i < w.len() ==> #[trigger] is_link(specs, w, i)
}

// ---------------------------------------------------------------------------
// The project
// ---------------------------------------------------------------------------

/// A project: the sysroot, every crate, and what can be run.
#[derive(Debug, PartialEq, Eq)]
pub struct RustProject {
    /// The path to a Rust sysroot.
    pub sysroot: String,
    /// The path to the sources of the sysroot crates.
    pub sysroot_src: String,
    /// The crates, together with all their dependencies.
    pub crates: Vec<Crate>,
    /// What can be run.
    pub runnables: Vec<Runnable>,
}

/// A crate of a project.
#[derive(Debug, PartialEq, Eq)]
pub struct Crate {
    pub display_name: Option<String>,
    /// Path to the root module of the crate.
    pub root_module: String,
    pub edition: String,
    pub deps: Vec<Dependency>,
    /// Whether the crate is part of the workspace being edited.
    pub is_workspace_member: Option<bool>,
    pub source: Source,
    /// The active configuration, such as `feature="foo"`.
    pub cfg: Vec<String>,
    /// The target triple.
    pub target: Option<String>,
    /// Environment variables for `env!`.
    pub env: Option<StringMap>,
    pub is_proc_macro: bool,
    /// The compiled procedural macro.
    pub proc_macro_dylib_path: Option<String>,
    pub build: Option<Build>,
}

/// The directories that hold the sources of a crate.
#[derive(Debug, PartialEq, Eq)]
pub struct Source {
    pub include_dirs: Vec<String>,
    pub exclude_dirs: Vec<String>,
}

impl Default for Source {
    fn default() -> (r: Self)
        ensures
            r.include_dirs@.len() == 0,
            r.exclude_dirs@.len() == 0,
    {
        Source { include_dirs: Vec::new(), exclude_dirs: Vec::new() }
    }
}

impl Source {
    /// Whether no directory is named.
    pub fn is_empty(&self) -> (r: bool)
        ensures
            r == (self.include_dirs@.len() == 0 && self.exclude_dirs@.len() == 0),
    {
        self.include_dirs.len() == 0 && self.exclude_dirs.len() == 0
    }
}

/// A dependency of a crate.
#[derive(Debug, PartialEq, Eq)]
pub struct Dependency {
    /// The position of the crate in the project.
    pub crate_index: usize,
    /// The name under which the crate is used.
    pub name: String,
}

/// How a crate is built.
#[derive(Debug, PartialEq, Eq)]
pub struct Build {
    /// The label of the target.
    pub label: String,
    /// The file that defines the target.
    pub build_file: String,
    pub target_kind: TargetKind,
}

/// The kind of a target, which tells what can be done with it.
#[derive(Clone, Copy, Debug, PartialEq, Eq, Structural)]
pub enum TargetKind {
    Bin,
    /// Any kind of library.
    Lib,
    Test,
}

/// A command template. `{label}`, `{test_id}`, `{test_pattern}` and
/// `{saved_file}` in the arguments stand for what the editor fills in.
#[derive(Debug, PartialEq, Eq)]
pub struct Runnable {
    pub program: String,
    pub args: Vec<String>,
    /// The directory to run in.
    pub cwd: String,
    pub kind: RunnableKind,
}

/// What a command template is for. A reader that does not know a kind rejects
/// the whole project.
#[derive(Clone, Copy, Debug, PartialEq, Eq, Structural)]
pub enum RunnableKind {
    Check,
    /// The build that runs on every save and reports diagnostics.
    Flycheck,
    /// Running a binary.
    Run,
    /// Running a single test.
    TestOne,
    /// Running every test of a module; known from version 1.96 on.
    TestMod,
}

/// The contents of a command template.
pub struct RunnableView {
    pub program: Seq<char>,
    pub args: Seq<Seq<char>>,
    pub cwd: Seq<char>,
    pub kind: RunnableKind,
}

impl View for Runnable {
    type V = RunnableView;

    open spec fn view(&self) -> RunnableView {
        RunnableView {
            program: self.program@,
            args: text::views(self.args@),
            cwd: self.cwd@,
            kind: self.kind,
        }
    }
}

/// The contents of a build description.
pub struct BuildView {
    pub label: Seq<char>,
    pub build_file: Seq<char>,
    pub target_kind: TargetKind,
}

/// The contents of a crate.
pub struct CrateView {
    pub display_name: Option<Seq<char>>,
    pub root_module: Seq<char>,
    pub edition: Seq<char>,
    pub deps: Seq<(int, Seq<char>)>,
    pub is_workspace_member: Option<bool>,
    pub include_dirs: Seq<Seq<char>>,
    pub exclude_dirs: Seq<Seq<char>>,
    pub cfg: Seq<Seq<char>>,
    pub target: Option<Seq<char>>,
    pub env: Option<Seq<(Seq<char>, Seq<char>)>>,
    pub is_proc_macro: bool,
    pub proc_macro_dylib_path: Option<Seq<char>>,
    pub build: Option<BuildView>,
}

/// The contents of a list of dependencies.
pub open spec fn dependency_views(deps: Seq<Dependency>) -> Seq<(int, Seq<char>)> {
    deps.map_values(|d: Dependency| (d.crate_index as int, d.name@))
}

impl View for Crate {
    type V = CrateView;

    open spec fn view(&self) -> CrateView {
        CrateView {
            display_name: text::opt_view(self.display_name),
            root_module: self.root_module@,
            edition: self.edition@,
            deps: dependency_views(self.deps@),
            is_workspace_member: self.is_workspace_member,
            include_dirs: text::views(self.source.include_dirs@),
            exclude_dirs: text::views(self.source.exclude_dirs@),
            cfg: text::views(self.cfg@),
            target: text::opt_view(self.target),
            env: match self.env {
                Some(m) => Some(m@),
                None => None,
            },
            is_proc_macro: self.is_proc_macro,
            proc_macro_dylib_path: text::opt_view(self.proc_macro_dylib_path),
            build: match self.build {
                Some(b) => Some(
                    BuildView {
                        label: b.label@,
                        build_file: b.build_file@,
                        target_kind: b.target_kind,
                    },
                ),
                None => None,
            },
        }
    }
}

/// Whether the version begins with a major and a minor number, and these reach
/// 1.96.
pub open spec fn reaches_test_mod(version: Seq<char>) -> bool {
    let parts = text::split_on(version, '.');
    &&& parts.len() >= 2
    &&& text::as_u32(parts[0]) matches Some(major)
    &&& text::as_u32(parts[1]) matches Some(minor)
    &&& major > 1 || (major == 1 && minor >= 96)
}

/// Whether a rust-analyzer of the given version knows `RunnableKind::TestMod`.
/// A version that is empty or makes no sense does not: losing a button is
/// better than losing the project.
pub fn supports_test_mod(version: &str) -> (r: bool)
    ensures
        r == reaches_test_mod(version@),
{
    let parts = split_text(version, '.');
    if parts.len() < 2 {
        return false;
    }
    match (parse_u32(parts[0].as_str()), parse_u32(parts[1].as_str())) {
        (Some(major), Some(minor)) => major > 1 || (major == 1 && minor >= 96),
        _ => false,
    }
}

/// The path of the flycheck program: in the launcher directory that the
/// environment names, or else in `.rules_rust_analyzer` in the workspace.
pub open spec fn flycheck_path(
    workspace: Seq<char>,
    launcher_dir: Option<Seq<char>>,
) -> Seq<char> {
    let dir = match launcher_dir {
        Some(d) => if d.len() > 0 {
            d
        } else {
            paths::joined(workspace, ".rules_rust_analyzer"@)
        },
        None => paths::joined(workspace, ".rules_rust_analyzer"@),
    };
    paths::joined(dir, FLYCHECK_BINARY_FILENAME@)
}

/// The path of the flycheck program, where `launcher_dir` is the launcher
/// directory that the environment names. An empty one counts as none.
pub fn flycheck_launcher_path(workspace: &str, launcher_dir: &Option<String>) -> (r: String)
    ensures
        r@ == flycheck_path(workspace@, text::opt_view(*launcher_dir)),
{
    let dir = match launcher_dir {
        Some(d) => {
            proof {
                reveal_strlit("");
                assert(""@ =~= Seq::<char>::empty());
                if d@.len() == 0 {
                    assert(d@ =~= Seq::<char>::empty());
                }
            }
            if text::same_text(d.as_str(), "") {
                paths::join(workspace, ".rules_rust_analyzer")
            } else {
                copied(d)
            }
        },
        None => paths::join(workspace, ".rules_rust_analyzer"),
    };
    paths::join(dir.as_str(), FLYCHECK_BINARY_FILENAME)
}

/// The command templates of a project.
pub open spec fn runnables_for(
    bazel: Seq<char>,
    workspace: Seq<char>,
    flycheck: Seq<char>,
    test_mod: bool,
) -> Seq<RunnableView> {
    let always = seq![
        RunnableView {
            program: bazel,
            args: seq!["build"@, "{label}"@],
            cwd: workspace,
            kind: RunnableKind::Check,
        },
        RunnableView {
            program: flycheck,
            args: seq!["{label}"@, "{saved_file}"@],
            cwd: workspace,
            kind: RunnableKind::Flycheck,
        },
        RunnableView {
            program: bazel,
            args: seq![
                "test"@,
                "{label}"@,
                "--test_output"@,
                "streamed"@,
                "--test_arg"@,
                "--nocapture"@,
                "--test_arg"@,
                "--exact"@,
                "--test_arg"@,
                "{test_id}"@,
            ],
            cwd: workspace,
            kind: RunnableKind::TestOne,
        },
        RunnableView {
            program: bazel,
            args: seq!["run"@, "{label}"@],
            cwd: workspace,
            kind: RunnableKind::Run,
        },
    ];
    if test_mod {
        always.push(
            RunnableView {
                program: bazel,
                args: seq![
                    "test"@,
                    "{label}"@,
                    "--test_output"@,
                    "streamed"@,
                    "--test_arg"@,
                    "--nocapture"@,
                    "--test_arg"@,
                    "{test_pattern}"@,
                ],
                cwd: workspace,
                kind: RunnableKind::TestMod,
            },
        )
    } else {
        always
    }
}

/// The contents of a list of command templates.
pub open spec fn runnable_views(list: Seq<Runnable>) -> Seq<RunnableView> {
    list.map_values(|r: Runnable| r@)
}

/// One command template.
fn runnable(program: &str, args: Vec<String>, cwd: &str, kind: RunnableKind) -> (r: Runnable)
    ensures
        r@ == (RunnableView { program: program@, args: text::views(args@), cwd: cwd@, kind }),
{
    Runnable { program: program.to_owned(), args, cwd: cwd.to_owned(), kind }
}

/// The command templates of a project.
fn assemble_runnables(bazel: &str, workspace: &str, flycheck: &str, test_mod: bool) -> (r: Vec<
    Runnable,
>)
    ensures
        runnable_views(r@) == runnables_for(bazel@, workspace@, flycheck@, test_mod),
{
    let check_args: Vec<String> = vec!["build".to_owned(), "{label}".to_owned()];
    assert(text::views(check_args@) =~= seq!["build"@, "{label}"@]);
    let flycheck_args: Vec<String> = vec!["{label}".to_owned(), "{saved_file}".to_owned()];
    assert(text::views(flycheck_args@) =~= seq!["{label}"@, "{saved_file}"@]);
    let test_args: Vec<String> = vec![
        "test".to_owned(),
        "{label}".to_owned(),
        "--test_output".to_owned(),
        "streamed".to_owned(),
        "--test_arg".to_owned(),
        "--nocapture".to_owned(),
        "--test_arg".to_owned(),
        "--exact".to_owned(),
        "--test_arg".to_owned(),
        "{test_id}".to_owned(),
    ];
    assert(text::views(test_args@) =~= seq![
        "test"@,
        "{label}"@,
        "--test_output"@,
        "streamed"@,
        "--test_arg"@,
        "--nocapture"@,
        "--test_arg"@,
        "--exact"@,
        "--test_arg"@,
        "{test_id}"@,
    ]);
    let run_args: Vec<String> = vec!["run".to_owned(), "{label}".to_owned()];
    assert(text::views(run_args@) =~= seq!["run"@, "{label}"@]);
    let mut out: Vec<Runnable> = Vec::new();
    out.push(runnable(bazel, check_args, workspace, RunnableKind::Check));
    out.push(runnable(flycheck, flycheck_args, workspace, RunnableKind::Flycheck));
    out.push(runnable(bazel, test_args, workspace, RunnableKind::TestOne));
    out.push(runnable(bazel, run_args, workspace, RunnableKind::Run));
    if test_mod {
        let module_args: Vec<String> = vec![
            "test".to_owned(),
            "{label}".to_owned(),
            "--test_output".to_owned(),
            "streamed".to_owned(),
            "--test_arg".to_owned(),
            "--nocapture".to_owned(),
            "--test_arg".to_owned(),
            "{test_pattern}".to_owned(),
        ];
        assert(text::views(module_args@) =~= seq![
            "test"@,
            "{label}"@,
            "--test_output"@,
            "streamed"@,
            "--test_arg"@,
            "--nocapture"@,
            "--test_arg"@,
            "{test_pattern}"@,
        ]);
        out.push(runnable(bazel, module_args, workspace, RunnableKind::TestMod));
    }
    assert(runnable_views(out@) =~= runnables_for(bazel@, workspace@, flycheck@, test_mod));
    out
}

/// The kind of the target that builds a crate.
pub open spec fn target_kind_of(c: CrateSpec) -> TargetKind {
    if c.crate_type != CrateType::Bin {
        TargetKind::Lib
    } else if c.is_test {
        TargetKind::Test
    } else {
        TargetKind::Bin
    }
}

/// The dependencies among `deps` that are crates of the set: the position of
/// the last crate with the id, and the alias that `aliases` gives it or else
/// its display name.
pub open spec fn resolved_deps(
    specs: Seq<CrateSpec>,
    aliases: Seq<(Seq<char>, Seq<char>)>,
    deps: Seq<Seq<char>>,
) -> Seq<(int, Seq<char>)>
    decreases deps.len(),
{
    if deps.len() == 0 {
        Seq::empty()
    } else {
        let rest = resolved_deps(specs, aliases, deps.drop_last());
        match last_with_id(specs, deps.last()) {
            Some(j) => {
                let name = match string_map::lookup(aliases, deps.last()) {
                    Some(alias) => alias,
                    None => specs[j].display_name@,
                };
                rest.push((j, name))
            },
            None => rest,
        }
    }
}

/// The crate of a project that `c` describes, among `specs`.
pub open spec fn crate_for(specs: Seq<CrateSpec>, c: CrateSpec) -> CrateView {
    CrateView {
        display_name: Some(c.display_name@),
        root_module: c.root_module@,
        edition: c.edition@,
        deps: resolved_deps(specs, c.aliases@, c.deps@),
        is_workspace_member: Some(c.is_workspace_member),
        include_dirs: match c.source {
            Some(s) => text::views(s.include_dirs@),
            None => Seq::empty(),
        },
        exclude_dirs: match c.source {
            Some(s) => text::views(s.exclude_dirs@),
            None => Seq::empty(),
        },
        cfg: text::views(c.cfg@),
        target: Some(c.target@),
        env: Some(c.env@),
        is_proc_macro: c.proc_macro_dylib_path is Some,
        proc_macro_dylib_path: text::opt_view(c.proc_macro_dylib_path),
        build: match c.build {
            Some(b) => Some(
                BuildView {
                    label: b.label@,
                    build_file: b.build_file@,
                    target_kind: target_kind_of(c),
                },
            ),
            None => None,
        },
    }
}

/// The contents of a list of crates.
pub open spec fn crate_views(list: Seq<Crate>) -> Seq<CrateView> {
    list.map_values(|c: Crate| c@)
}

/// The crates of a project, in the order of their descriptions.
pub open spec fn crates_for(specs: Seq<CrateSpec>) -> Seq<CrateView> {
    specs.map_values(|c: CrateSpec| crate_for(specs, c))
}

/// Whether `index` finds the last crate with an id.
spec fn is_last_index(index: Map<Seq<char>, usize>, specs: Seq<CrateSpec>) -> bool {
    forall|id: Seq<char>|
        match last_with_id(specs, id) {
            Some(j) => #[trigger] index.contains_key(id) && index[id] == j,
            None => !index.contains_key(id),
        }
}

proof fn lemma_index_grows(
    before: Map<Seq<char>, usize>,
    after: Map<Seq<char>, usize>,
    specs: Seq<CrateSpec>,
    i: usize,
)
    requires
        0 <= i < specs.len(),
        is_last_index(before, specs.take(i as int)),
        after == before.insert(specs[i as int].crate_id@, i),
    ensures
        is_last_index(after, specs.take(i + 1)),
{
    let shorter = specs.take(i as int);
    let longer = specs.take(i + 1);
    assert(longer.drop_last() =~= shorter);
    assert(longer.last() == specs[i as int]);
    assert forall|id: Seq<char>|
        match last_with_id(longer, id) {
            Some(j) => #[trigger] after.contains_key(id) && after[id] == j,
            None => !after.contains_key(id),
        } by {
        assert(before.contains_key(id) == (last_with_id(shorter, id) is Some));
    }
}

/// The position of the last crate with every id.
fn index_crates(crate_specs: &CrateSpecs) -> (index: StringHashMap<usize>)
    ensures
        is_last_index(index@, crate_specs.values()),
{
    let ghost specs = crate_specs.values();
    proof {
        crate_specs.lemma_values();
    }
    let mut index: StringHashMap<usize> = StringHashMap::new();
    let mut i: usize = 0;
    while i < crate_specs.len()
        invariant
            specs == crate_specs.values(),
            specs.len() == crate_specs@.len(),
            i <= specs.len(),
            is_last_index(index@, specs.take(i as int)),
        decreases specs.len() - i,
    {
        let ghost before = index@;
        index.insert(copied(&crate_specs.get(i).crate_id), i);
        proof {
            lemma_index_grows(before, index@, specs, i);
        }
        i += 1;
    }
    assert(specs.take(i as int) =~= specs);
    index
}

/// The dependencies of `c` that are crates of the set.
fn resolve_deps(c: &CrateSpec, crate_specs: &CrateSpecs, index: &StringHashMap<usize>) -> (r: Vec<
    Dependency,
>)
    requires
        is_last_index(index@, crate_specs.values()),
    ensures
        dependency_views(r@) == resolved_deps(crate_specs.values(), c.aliases@, c.deps@),
{
    let ghost specs = crate_specs.values();
    proof {
        crate_specs.lemma_values();
    }
    let mut r: Vec<Dependency> = Vec::new();
    let mut j: usize = 0;
    assert(dependency_views(r@) =~= resolved_deps(specs, c.aliases@, c.deps@.take(0)));
    while j < c.deps.len()
        invariant
            specs == crate_specs.values(),
            specs.len() == crate_specs@.len(),
            is_last_index(index@, specs),
            j <= c.deps@.len(),
            dependency_views(r@) == resolved_deps(specs, c.aliases@, c.deps@.take(j as int)),
        decreases c.deps@.len() - j,
    {
        let dep = c.deps.get(j);
        let ghost before = r@;
        proof {
            assert(c.deps@.take(j + 1).drop_last() =~= c.deps@.take(j as int));
            assert(c.deps@.take(j + 1).last() == dep@);
            lemma_last_with_id(specs, dep@);
            assert(index@.contains_key(dep@) == (last_with_id(specs, dep@) is Some));
        }
        match index.get(dep.as_str()) {
            Some(at) => {
                let name = match c.aliases.get(dep.as_str()) {
                    Some(alias) => copied(alias),
                    None => copied(&crate_specs.get(*at).display_name),
                };
                let ghost named = name@;
                r.push(Dependency { crate_index: *at, name });
                assert(dependency_views(r@) =~= dependency_views(before).push(
                    (*at as int, named),
                ));
            },
            None => {},
        }
        j += 1;
    }
    assert(c.deps@.take(j as int) =~= c.deps@);
    r
}

/// A copy of an optional string.
fn copied_opt(s: &Option<String>) -> (r: Option<String>)
    ensures
        text::opt_view(r) == text::opt_view(*s),
{
    match s {
        Some(t) => Some(copied(t)),
        None => None,
    }
}

/// The crate of a project that `c` describes.
fn assemble_crate(c: &CrateSpec, crate_specs: &CrateSpecs, index: &StringHashMap<usize>) -> (r:
    Crate)
    requires
        is_last_index(index@, crate_specs.values()),
    ensures
        r@ == crate_for(crate_specs.values(), *c),
{
    let target_kind = match c.crate_type {
        CrateType::Bin => if c.is_test {
            TargetKind::Test
        } else {
            TargetKind::Bin
        },
        CrateType::Rlib
        | CrateType::Lib
        | CrateType::Dylib
        | CrateType::Cdylib
        | CrateType::Staticlib
        | CrateType::ProcMacro => TargetKind::Lib,
    };
    let source = match &c.source {
        Some(s) => Source {
            exclude_dirs: copied_list(&s.exclude_dirs),
            include_dirs: copied_list(&s.include_dirs),
        },
        None => {
            let none = Source::default();
            assert(text::views(none.include_dirs@) =~= Seq::empty());
            assert(text::views(none.exclude_dirs@) =~= Seq::empty());
            none
        },
    };
    let build = match &c.build {
        Some(b) => Some(
            Build { label: copied(&b.label), build_file: copied(&b.build_file), target_kind },
        ),
        None => None,
    };
    Crate {
        display_name: Some(copied(&c.display_name)),
        root_module: copied(&c.root_module),
        edition: copied(&c.edition),
        deps: resolve_deps(c, crate_specs, index),
        is_workspace_member: Some(c.is_workspace_member),
        source,
        cfg: copied_list(&c.cfg),
        target: Some(copied(&c.target)),
        env: Some(c.env.clone()),
        is_proc_macro: c.proc_macro_dylib_path.is_some(),
        proc_macro_dylib_path: copied_opt(&c.proc_macro_dylib_path),
        build,
    }
}

/// Assembles the project: one crate for every description, in their order,
/// with the dependencies that are crates of the set. A dependency that is not,
/// or a cycle, is no failure. `launcher_dir` is the launcher directory that
/// the environment names.
pub fn assemble_rust_project(
    bazel: &str,
    workspace: &str,
    toolchain_info: ToolchainInfo,
    crate_specs: &CrateSpecs,
    launcher_dir: &Option<String>,
) -> (r: Result<RustProject, DiscoveryError>)
    ensures
        r matches Ok(project) && {
            &&& project.sysroot == toolchain_info.sysroot
            &&& project.sysroot_src == toolchain_info.sysroot_src
            &&& crate_views(project.crates@) == crates_for(crate_specs.values())
            &&& runnable_views(project.runnables@) == runnables_for(
                bazel@,
                workspace@,
                flycheck_path(workspace@, text::opt_view(*launcher_dir)),
                reaches_test_mod(toolchain_info.version@),
            )
        },
{
    let emit_test_mod = supports_test_mod(toolchain_info.version.as_str());
    let flycheck = flycheck_launcher_path(workspace, launcher_dir);
    let runnables = assemble_runnables(bazel, workspace, flycheck.as_str(), emit_test_mod);
    let index = index_crates(crate_specs);
    let ghost specs = crate_specs.values();
    proof {
        crate_specs.lemma_values();
    }
    let mut crates: Vec<Crate> = Vec::new();
    let mut i: usize = 0;
    while i < crate_specs.len()
        invariant
            specs == crate_specs.values(),
            specs.len() == crate_specs@.len(),
            is_last_index(index@, specs),
            i <= specs.len(),
            crates@.len() == i,
            forall|k: int| 0 <= k < i ==> (#[trigger] crates@[k])@ == crate_for(specs, specs[k]),
        decreases specs.len() - i,
    {
        crates.push(assemble_crate(crate_specs.get(i), crate_specs, &index));
        i += 1;
    }
    assert(crate_views(crates@) =~= crates_for(specs));
    Ok(
        RustProject {
            sysroot: toolchain_info.sysroot,
            sysroot_src: toolchain_info.sysroot_src,
            crates,
            runnables,
        },
    )
}

/// Every resolved dependency is a crate of the project with the id of one of
/// the dependencies, and one that is left out names no crate.
pub proof fn lemma_resolved_deps(
    specs: Seq<CrateSpec>,
    aliases: Seq<(Seq<char>, Seq<char>)>,
    deps: Seq<Seq<char>>,
)
    ensures
        forall|k: int|
            0 <= k < resolved_deps(specs, aliases, deps).len() ==> {
                let at = (#[trigger] resolved_deps(specs, aliases, deps)[k]).0;
                0 <= at < specs.len() && deps.contains(specs[at].crate_id@)
            },
        resolved_deps(specs, aliases, deps).len() <= deps.len(),
        (forall|k: int| 0 <= k < deps.len() ==> crate_ids(specs).contains(#[trigger] deps[k])) <==>
            resolved_deps(specs, aliases, deps).len() == deps.len(),
    decreases deps.len(),
{
    if deps.len() > 0 {
        let d = deps.drop_last();
        let rest = resolved_deps(specs, aliases, d);
        let all = resolved_deps(specs, aliases, deps);
        lemma_resolved_deps(specs, aliases, d);
        lemma_last_with_id(specs, deps.last());
        assert(deps[deps.len() - 1] == deps.last());
        assert forall|k: int| 0 <= k < all.len() implies {
            let at = (#[trigger] all[k]).0;
            0 <= at < specs.len() && deps.contains(specs[at].crate_id@)
        } by {
            if k < rest.len() {
                let at = rest[k].0;
                assert(all[k] == rest[k]);
                let j = choose|j: int| 0 <= j < d.len() && d[j] == specs[at].crate_id@;
                assert(deps[j] == specs[at].crate_id@);
            }
        }
        match last_with_id(specs, deps.last()) {
            Some(j) => {
                assert(crate_ids(specs)[j] == deps.last());
                assert(crate_ids(specs).contains(deps.last()));
            },
            None => {
                if crate_ids(specs).contains(deps.last()) {
                    let j = choose|j: int|
                        0 <= j < crate_ids(specs).len() && crate_ids(specs)[j] == deps.last();
                    assert(specs[j].crate_id@ == deps.last());
                }
            },
        }
        if forall|k: int| 0 <= k < deps.len() ==> crate_ids(specs).contains(#[trigger] deps[k]) {
            assert forall|k: int| 0 <= k < d.len() implies crate_ids(specs).contains(
                #[trigger] d[k],
            ) by {
                assert(d[k] == deps[k]);
            }
            assert(crate_ids(specs).contains(deps[deps.len() - 1]));
        }
        if all.len() == deps.len() {
            assert forall|k: int| 0 <= k < deps.len() implies crate_ids(specs).contains(
                #[trigger] deps[k],
            ) by {
                if k < d.len() {
                    assert(d[k] == deps[k]);
                }
            }
        }
    }
}

// ---------------------------------------------------------------------------
// What a project holds
// ---------------------------------------------------------------------------

/// Whether two optional texts are the same.
pub open spec fn same_text_or_none(a: Option<String>, b: Option<String>) -> bool {
    match (a, b) {
        (Some(x), Some(y)) => x@ == y@,
        (None, None) => true,
        _ => false,
    }
}

/// Every description has its crate, at the same position, and the crate has what
/// the description says: name, root module, edition, cfgs, target, environment,
/// whether it is a member of the workspace, and the library of a procedural
/// macro.
pub proof fn lemma_crate_as_described(crates: Seq<Crate>, specs: Seq<CrateSpec>, i: int)
    requires
        crate_views(crates) == crates_for(specs),
        0 <= i < specs.len(),
    ensures
        crates.len() == specs.len(),
        crates[i].display_name matches Some(name) && name@ == specs[i].display_name@,
        crates[i].root_module@ == specs[i].root_module@,
        crates[i].edition@ == specs[i].edition@,
        text::same_texts(crates[i].cfg@, specs[i].cfg@),
        crates[i].target matches Some(target) && target@ == specs[i].target@,
        crates[i].env matches Some(env) && env@ == specs[i].env@,
        crates[i].is_workspace_member == Some(specs[i].is_workspace_member),
        crates[i].is_proc_macro <==> specs[i].proc_macro_dylib_path is Some,
        same_text_or_none(
            crates[i].proc_macro_dylib_path,
            specs[i].proc_macro_dylib_path,
        ),
{
    assert(crate_views(crates).len() == crates.len());
    assert(crate_views(crates)[i] == crates[i]@);
    assert(crates_for(specs)[i] == crate_for(specs, specs[i]));
    text::lemma_same_texts(crates[i].cfg@, specs[i].cfg@);
}

/// A crate has the source directories of its description, and none where that
/// has none; and the label and the build file of the target that builds it. A
/// binary that is a test is a test target, another binary is a binary target, and
/// everything else is a library.
pub proof fn lemma_crate_sources_and_build(crates: Seq<Crate>, specs: Seq<CrateSpec>, i: int)
    requires
        crate_views(crates) == crates_for(specs),
        0 <= i < specs.len(),
    ensures
        match specs[i].source {
            Some(source) => text::same_texts(
                crates[i].source.include_dirs@,
                source.include_dirs@,
            ) && text::same_texts(crates[i].source.exclude_dirs@, source.exclude_dirs@),
            None => crates[i].source.include_dirs@.len() == 0
                && crates[i].source.exclude_dirs@.len() == 0,
        },
        crates[i].build is Some <==> specs[i].build is Some,
        (specs[i].build matches Some(described) ==> (crates[i].build matches Some(build)
            && build.label@ == described.label@ && build.build_file@ == described.build_file@ && (
        build.target_kind == TargetKind::Test <==> specs[i].crate_type == CrateType::Bin
            && specs[i].is_test) && (build.target_kind == TargetKind::Bin <==> specs[i].crate_type
            == CrateType::Bin && !specs[i].is_test))),
{
    assert(crate_views(crates).len() == crates.len());
    assert(crate_views(crates)[i] == crates[i]@);
    assert(crates_for(specs)[i] == crate_for(specs, specs[i]));
    match specs[i].source {
        Some(source) => {
            text::lemma_same_texts(crates[i].source.include_dirs@, source.include_dirs@);
            text::lemma_same_texts(crates[i].source.exclude_dirs@, source.exclude_dirs@);
        },
        None => {
            assert(text::views(crates[i].source.include_dirs@).len() == 0);
            assert(text::views(crates[i].source.exclude_dirs@).len() == 0);
        },
    }
}

/// Whether `at` is the last crate with this id.
pub open spec fn is_last_with(specs: Seq<CrateSpec>, at: int, id: Seq<char>) -> bool {
    &&& 0 <= at < specs.len()
    &&& specs[at].crate_id@ == id
    &&& forall|k: int| at < k < specs.len() ==> (#[trigger] specs[k]).crate_id@ != id
}

/// The ids among `deps` that crates of the set have, in order.
pub open spec fn known_among(specs: Seq<CrateSpec>, deps: Seq<Seq<char>>) -> Seq<Seq<char>> {
    deps.filter(
        |id: Seq<char>| exists|k: int| 0 <= k < specs.len() && (#[trigger] specs[k]).crate_id@ == id,
    )
}

proof fn lemma_resolved_known(
    specs: Seq<CrateSpec>,
    aliases: Seq<(Seq<char>, Seq<char>)>,
    deps: Seq<Seq<char>>,
)
    ensures
        resolved_deps(specs, aliases, deps).len() == known_among(specs, deps).len(),
        forall|d: int|
            0 <= d < known_among(specs, deps).len() ==> is_last_with(
                specs,
                (#[trigger] resolved_deps(specs, aliases, deps)[d]).0,
                known_among(specs, deps)[d],
            ) && resolved_deps(specs, aliases, deps)[d].1 == (match string_map::lookup(
                aliases,
                known_among(specs, deps)[d],
            ) {
                Some(alias) => alias,
                None => specs[resolved_deps(specs, aliases, deps)[d].0].display_name@,
            }),
    decreases deps.len(),
{
    reveal(Seq::filter);
    if deps.len() > 0 {
        lemma_resolved_known(specs, aliases, deps.drop_last());
        lemma_last_with_id(specs, deps.last());
        match last_with_id(specs, deps.last()) {
            Some(j) => {
                assert(specs[j].crate_id@ == deps.last());
            },
            None => {},
        }
    }
}

/// The dependencies of a crate are those of its description that are crates of
/// the set, in their order. Each names the position of its crate, the last one
/// where several have the id, and is used under the alias that the description
/// gives it, or else under that crate's name.
pub proof fn lemma_crate_dependencies(crates: Seq<Crate>, specs: Seq<CrateSpec>, i: int, d: int)
    requires
        crate_views(crates) == crates_for(specs),
        0 <= i < specs.len(),
    ensures
        crates[i].deps@.len() == known_among(specs, specs[i].deps@).len(),
        0 <= d < crates[i].deps@.len() ==> {
            let id = known_among(specs, specs[i].deps@)[d];
            let dep = crates[i].deps@[d];
            is_last_with(specs, dep.crate_index as int, id) && dep.name@ == (
            match string_map::lookup(specs[i].aliases@, id) {
                Some(alias) => alias,
                None => specs[dep.crate_index as int].display_name@,
            })
        },
{
    assert(crate_views(crates).len() == crates.len());
    assert(crate_views(crates)[i] == crates[i]@);
    assert(crates_for(specs)[i] == crate_for(specs, specs[i]));
    lemma_resolved_known(specs, specs[i].aliases@, specs[i].deps@);
    let deps = crates[i].deps@;
    assert(dependency_views(deps).len() == deps.len());
    if 0 <= d < deps.len() {
        assert(dependency_views(deps)[d] == (deps[d].crate_index as int, deps[d].name@));
    }
}

/// Whether some argument of a command is `arg`.
pub open spec fn has_argument(r: Runnable, arg: Seq<char>) -> bool {
    exists|k: int| 0 <= k < r.args@.len() && (#[trigger] r.args@[k])@ == arg
}

/// Every command of a project runs in the workspace and is given the label of the
/// target. The one that runs on save is the flycheck program, which is given the
/// saved file too; all others are runs of bazel.
pub proof fn lemma_project_commands(
    runnables: Seq<Runnable>,
    bazel: Seq<char>,
    workspace: Seq<char>,
    flycheck: Seq<char>,
    test_mod: bool,
    i: int,
)
    requires
        runnable_views(runnables) == runnables_for(bazel, workspace, flycheck, test_mod),
        0 <= i < runnables.len(),
    ensures
        runnables[i].cwd@ == workspace,
        has_argument(runnables[i], "{label}"@),
        runnables[i].program@ == (if runnables[i].kind == RunnableKind::Flycheck {
            flycheck
        } else {
            bazel
        }),
        runnables[i].kind == RunnableKind::Flycheck ==> runnables[i].args@.len() == 2
            && runnables[i].args@[0]@ == "{label}"@ && runnables[i].args@[1]@ == "{saved_file}"@,
        runnables[i].kind == RunnableKind::Check ==> runnables[i].args@.len() == 2
            && runnables[i].args@[0]@ == "build"@ && runnables[i].args@[1]@ == "{label}"@,
        runnables[i].kind == RunnableKind::Run ==> runnables[i].args@.len() == 2
            && runnables[i].args@[0]@ == "run"@ && runnables[i].args@[1]@ == "{label}"@,
{
    let r = runnables[i];
    let all = runnables_for(bazel, workspace, flycheck, test_mod);
    assert(runnable_views(runnables).len() == runnables.len());
    assert(runnable_views(runnables)[i] == r@);
    assert(all.len() == (if test_mod {
        5int
    } else {
        4int
    }));
    assert(i == 0 || i == 1 || i == 2 || i == 3 || i == 4);
    assert(r@ == all[i] && r.kind == all[i].kind);
    assert(text::views(r.args@) == r@.args);
    assert(text::views(r.args@).len() == r.args@.len());
    assert forall|k: int| 0 <= k < r.args@.len() implies (#[trigger] r.args@[k])@ == r@.args[k] by {
        assert(text::views(r.args@)[k] == r.args@[k]@);
    }
    let at: int = if r.kind == RunnableKind::Flycheck {
        0
    } else {
        1
    };
    assert(r.args@[at]@ == "{label}"@);
}

/// A single test is run by its exact id, and a module of tests by the pattern,
/// each with the test's output shown; every argument for the test goes behind a
/// `--test_arg`.
pub proof fn lemma_test_commands(
    runnables: Seq<Runnable>,
    bazel: Seq<char>,
    workspace: Seq<char>,
    flycheck: Seq<char>,
    test_mod: bool,
    i: int,
)
    requires
        runnable_views(runnables) == runnables_for(bazel, workspace, flycheck, test_mod),
        0 <= i < runnables.len(),
        runnables[i].kind == RunnableKind::TestOne || runnables[i].kind == RunnableKind::TestMod,
    ensures
        runnables[i].args@.len() >= 8,
        runnables[i].args@[0]@ == "test"@,
        runnables[i].args@[1]@ == "{label}"@,
        runnables[i].args@[2]@ == "--test_output"@ && runnables[i].args@[3]@ == "streamed"@,
        runnables[i].args@[4]@ == "--test_arg"@ && runnables[i].args@[5]@ == "--nocapture"@,
        runnables[i].args@[6]@ == "--test_arg"@,
        runnables[i].kind == RunnableKind::TestMod ==> runnables[i].args@.len() == 8
            && runnables[i].args@[7]@ == "{test_pattern}"@,
        runnables[i].kind == RunnableKind::TestOne ==> runnables[i].args@.len() == 10
            && runnables[i].args@[7]@ == "--exact"@ && runnables[i].args@[8]@ == "--test_arg"@
            && runnables[i].args@[9]@ == "{test_id}"@,
{
    let r = runnables[i];
    let all = runnables_for(bazel, workspace, flycheck, test_mod);
    assert(runnable_views(runnables).len() == runnables.len());
    assert(runnable_views(runnables)[i] == r@);
    assert(all.len() == (if test_mod {
        5int
    } else {
        4int
    }));
    assert(i == 0 || i == 1 || i == 2 || i == 3 || i == 4);
    assert(r@ == all[i] && r.kind == all[i].kind);
    assert(text::views(r.args@).len() == r.args@.len());
    assert forall|k: int| 0 <= k < r.args@.len() implies (#[trigger] r.args@[k])@ == r@.args[k] by {
        assert(text::views(r.args@)[k] == r.args@[k]@);
    }
}

/// A project has one command of every kind, and that for a module of tests
/// exactly where the reader knows the kind.
pub proof fn lemma_command_kinds(
    runnables: Seq<Runnable>,
    bazel: Seq<char>,
    workspace: Seq<char>,
    flycheck: Seq<char>,
    test_mod: bool,
)
    requires
        runnable_views(runnables) == runnables_for(bazel, workspace, flycheck, test_mod),
    ensures
        forall|i: int, j: int|
            0 <= i < runnables.len() && 0 <= j < runnables.len() && i != j ==> (
            #[trigger] runnables[i]).kind != (#[trigger] runnables[j]).kind,
        exists|i: int| 0 <= i < runnables.len() && (#[trigger] runnables[i]).kind
            == RunnableKind::Check,
        exists|i: int| 0 <= i < runnables.len() && (#[trigger] runnables[i]).kind
            == RunnableKind::Flycheck,
        exists|i: int| 0 <= i < runnables.len() && (#[trigger] runnables[i]).kind
            == RunnableKind::Run,
        exists|i: int| 0 <= i < runnables.len() && (#[trigger] runnables[i]).kind
            == RunnableKind::TestOne,
        (exists|i: int| 0 <= i < runnables.len() && (#[trigger] runnables[i]).kind
            == RunnableKind::TestMod) <==> test_mod,
{
    let all = runnable_views(runnables);
    assert(all.len() == runnables.len());
    assert forall|i: int| 0 <= i < runnables.len() implies (#[trigger] runnables[i]).kind
        == all[i].kind by {}
    assert(all[0].kind == RunnableKind::Check && runnables[0].kind == all[0].kind);
    assert(all[1].kind == RunnableKind::Flycheck && runnables[1].kind == all[1].kind);
    assert(all[2].kind == RunnableKind::TestOne && runnables[2].kind == all[2].kind);
    assert(all[3].kind == RunnableKind::Run && runnables[3].kind == all[3].kind);
    if test_mod {
        assert(all[4].kind == RunnableKind::TestMod && runnables[4].kind == all[4].kind);
    }
}

/// A version reaches the one that knows test modules when its major number is
/// above 1, or is 1 with a minor number from 96 on, whatever follows these two.
/// A version without a dot, or with anything but digits before the first one, does
/// not.
pub proof fn lemma_version_order(major: nat, minor: nat, rest: Seq<char>, odd: Seq<char>)
    requires
        major <= u32::MAX,
        minor <= u32::MAX,
    ensures
        reaches_test_mod(text::decimal(major) + seq!['.'] + text::decimal(minor)) == (major > 1 || (
        major == 1 && minor >= 96)),
        reaches_test_mod(
            text::decimal(major) + seq!['.'] + (text::decimal(minor) + seq!['.'] + rest),
        ) == (major > 1 || (major == 1 && minor >= 96)),
        text::free_of(odd, '.') ==> !reaches_test_mod(odd),
        text::free_of(odd, '.') && (exists|i: int|
            0 <= i < odd.len() && !('0' <= #[trigger] odd[i] <= '9') && odd[i] != '+')
            ==> !reaches_test_mod(odd + seq!['.'] + rest),
{
    text::lemma_decimal_digits(major);
    text::lemma_decimal_digits(minor);
    text::lemma_decimal_read_back(major);
    text::lemma_decimal_read_back(minor);
    let a = text::decimal(major);
    let b = text::decimal(minor);
    assert(text::free_of(a, '.'));
    assert(text::free_of(b, '.'));
    text::lemma_split_on(a, '.', b);
    text::lemma_split_on(b, '.', rest);
    text::lemma_split_on(a, '.', b + seq!['.'] + rest);
    assert(text::split_on(a + seq!['.'] + b, '.')[1] == b);
    let tail = b + seq!['.'] + rest;
    assert(text::split_on(a + seq!['.'] + tail, '.')[0] == a);
    assert(text::split_on(tail, '.')[0] == b);
    assert(text::split_on(a + seq!['.'] + tail, '.')[1] == text::split_on(tail, '.')[0]);
    if text::free_of(odd, '.') {
        text::lemma_split_on(odd, '.', rest);
        text::lemma_no_number(odd);
        assert(text::split_on(odd + seq!['.'] + rest, '.')[0] == odd);
    }
}

/// The flycheck program is in the launcher directory that the environment names,
/// and in the workspace where it names none.
pub proof fn lemma_flycheck_place(workspace: Seq<char>, dir: Seq<char>)
    ensures
        dir.len() > 0 ==> flycheck_path(workspace, Some(dir)) == paths::joined(
            dir,
            FLYCHECK_BINARY_FILENAME@,
        ),
        flycheck_path(workspace, None) == paths::joined(
            paths::joined(workspace, ".rules_rust_analyzer"@),
            FLYCHECK_BINARY_FILENAME@,
        ),
        flycheck_path(workspace, Some(Seq::empty())) == flycheck_path(workspace, None),
{
}

// ---------------------------------------------------------------------------
// What a diagnosis says
// ---------------------------------------------------------------------------

/// A crate depends on what the last crate with its id lists.
pub proof fn lemma_depends_on(specs: Seq<CrateSpec>, at: int, from: Seq<char>, to: Seq<char>)
    requires
        is_last_with(specs, at, from),
    ensures
        depends_on(specs, from, to) <==> specs[at].deps@.contains(to),
{
    lemma_last_with_id(specs, from);
    match last_with_id(specs, from) {
        Some(j) => {
            if j < at {
                assert(specs[at].crate_id@ != from);
            } else if at < j {
                assert(specs[j].crate_id@ != from);
            }
        },
        None => {
            assert(specs[at].crate_id@ != from);
        },
    }
}

/// A diagnosis lists a dependency as missing exactly when some crate has it and no
/// crate of the set is it, and the list is in order.
pub proof fn lemma_missing_listed(
    d: AssemblyDiagnostics,
    specs: Seq<CrateSpec>,
    id: Seq<char>,
    dep: Seq<char>,
)
    requires
        is_diagnosis(d, specs),
    ensures
        (exists|i: int|
            0 <= i < d.missing_deps@.len() && (#[trigger] d.missing_deps@[i]).0@ == id
                && d.missing_deps@[i].1@ == dep) <==> ((exists|k: int|
            0 <= k < specs.len() && (#[trigger] specs[k]).crate_id@ == id
                && specs[k].deps@.contains(dep)) && (forall|k: int|
            0 <= k < specs.len() ==> (#[trigger] specs[k]).crate_id@ != dep)),
        forall|i: int, j: int|
            0 <= i < j < d.missing_deps@.len() ==> {
                let a = ((#[trigger] d.missing_deps@[i]).0@, d.missing_deps@[i].1@);
                let b = ((#[trigger] d.missing_deps@[j]).0@, d.missing_deps@[j].1@);
                a == b || order::Ordered::before(a, b)
            },
{
    let listed = order::keys(d.missing_deps@);
    let all = all_missing(dependency_names(specs), specs);
    let pair = (id, dep);
    lemma_missing_reported(specs, pair);
    assert(listed.len() == d.missing_deps@.len());
    assert forall|i: int| 0 <= i < listed.len() implies #[trigger] listed[i] == (
        d.missing_deps@[i].0@,
        d.missing_deps@[i].1@,
    ) by {}
    broadcast use vstd::seq_lib::group_to_multiset_ensures;

    assert(listed.contains(pair) <==> listed.to_multiset().count(pair) > 0);
    assert(all.contains(pair) <==> all.to_multiset().count(pair) > 0);
    if listed.contains(pair) {
        let i = choose|i: int| 0 <= i < listed.len() && listed[i] == pair;
        assert(d.missing_deps@[i].0@ == id);
    }
    if exists|i: int|
        0 <= i < d.missing_deps@.len() && (#[trigger] d.missing_deps@[i]).0@ == id
            && d.missing_deps@[i].1@ == dep {
        let i = choose|i: int|
            0 <= i < d.missing_deps@.len() && (#[trigger] d.missing_deps@[i]).0@ == id
                && d.missing_deps@[i].1@ == dep;
        assert(listed[i] == pair);
    }
    assert forall|i: int, j: int| 0 <= i < j < d.missing_deps@.len() implies {
        let a = ((#[trigger] d.missing_deps@[i]).0@, d.missing_deps@[i].1@);
        let b = ((#[trigger] d.missing_deps@[j]).0@, d.missing_deps@[j].1@);
        a == b || order::Ordered::before(a, b)
    } by {
        assert(listed[i] == listed[j] || order::Ordered::before(listed[i], listed[j]));
    }
}

/// Every cycle that a diagnosis lists is a chain of dependencies from a crate back
/// to itself, which is named first and last and is the smallest on the way. Cycles
/// are listed exactly when there is such a chain.
pub proof fn lemma_cycles_listed(d: AssemblyDiagnostics, specs: Seq<CrateSpec>, i: int, k: int)
    requires
        is_diagnosis(d, specs),
    ensures
        0 <= i < d.cycles@.len() ==> {
            let along = d.cycles@[i]@;
            &&& along.len() >= 2
            &&& along[along.len() - 1]@ == along[0]@
            &&& 0 <= k < along.len() - 1 ==> depends_on(specs, along[k]@, along[k + 1]@)
            &&& 0 <= k < along.len() ==> along[k]@ == along[0]@ || order::Ordered::before(
                along[0]@,
                along[k]@,
            )
        },
        d.cycles@.len() == 0 <==> forall|w: Seq<Seq<char>>| !#[trigger] is_dependency_loop(
            specs,
            w,
        ),
{
    let names = dependency_names(specs);
    let all = cycles::all_cycles(dependency_edges(specs));
    let listed = cycles::list_views(d.cycles@);
    lemma_no_cycle_reported(specs);
    lemma_dependency_graph(specs);
    cycles::lemma_reported_cycles(dependency_edges(specs));
    assert(listed.len() == d.cycles@.len());
    assert(cycles::named_cycles(names, all).len() == all.len());
    if 0 <= i < d.cycles@.len() {
        let c = all[i];
        assert(all.contains(c));
        assert(cycles::is_cycle(dependency_edges(specs), c));
        let along = d.cycles@[i]@;
        assert(listed[i] == text::views(along));
        assert(listed[i] == cycles::closed_names(names, c));
        lemma_reported_names(specs, c, 0);
        assert(text::views(along).len() == along.len());
        assert forall|m: int| 0 <= m < along.len() implies (#[trigger] along[m])@
            == cycles::closed_names(names, c)[m] by {
            assert(text::views(along)[m] == along[m]@);
        }
        if 0 <= k < c.len() {
            lemma_reported_names(specs, c, k);
            assert(along[k]@ == cycles::closed_names(names, c)[k]);
            assert(along[k + 1]@ == cycles::closed_names(names, c)[k + 1]);
        }
        assert(along[0]@ == cycles::closed_names(names, c)[0]);
        assert(along[along.len() - 1]@ == cycles::closed_names(names, c)[along.len() - 1]);
    }
}

proof fn lemma_missing_report_at(pairs: Seq<(Seq<char>, Seq<char>)>, i: int)
    requires
        0 <= i < pairs.len(),
    ensures
        exists|before: Seq<char>, after: Seq<char>|
            missing_report(pairs) == #[trigger] (before + missing_line(pairs[i]) + after),
    decreases pairs.len(),
{
    let d = pairs.drop_last();
    if i < d.len() {
        lemma_missing_report_at(d, i);
        let (before, after) = choose|before: Seq<char>, after: Seq<char>|
            missing_report(d) == #[trigger] (before + missing_line(d[i]) + after);
        let rest = after + missing_line(pairs.last());
        assert(missing_report(pairs) =~= before + missing_line(pairs[i]) + rest);
    } else {
        assert(missing_report(pairs) =~= missing_report(d) + missing_line(pairs[i]) + Seq::<
            char,
        >::empty());
    }
}

proof fn lemma_cycle_report_at(found: Seq<Seq<Seq<char>>>, i: int)
    requires
        0 <= i < found.len(),
    ensures
        exists|before: Seq<char>, after: Seq<char>|
            cycle_report(found) == #[trigger] (before + cycle_line(found[i]) + after),
    decreases found.len(),
{
    let d = found.drop_last();
    if i < d.len() {
        lemma_cycle_report_at(d, i);
        let (before, after) = choose|before: Seq<char>, after: Seq<char>|
            cycle_report(d) == #[trigger] (before + cycle_line(d[i]) + after);
        let rest = after + cycle_line(found.last());
        assert(cycle_report(found) =~= before + cycle_line(found[i]) + rest);
    } else {
        assert(cycle_report(found) =~= cycle_report(d) + cycle_line(found[i]) + Seq::<
            char,
        >::empty());
    }
}

/// The report has a line about every missing dependency, with the crate and the
/// dependency in it, and nothing where nothing was found.
pub proof fn lemma_missing_in_report(d: AssemblyDiagnostics, i: int)
    ensures
        0 <= i < d.missing_deps@.len() ==> exists|before: Seq<char>, after: Seq<char>|
            report_of(d) == #[trigger] (before + ("missing dep: crate "@ + d.missing_deps@[i].0@
                + " references "@ + d.missing_deps@[i].1@
                + " which is not in the project (target may be a non-Rust dep, filtered, or its spec generation failed)\n"@)
                + after),
        d.missing_deps@.len() == 0 && d.cycles@.len() == 0 ==> report_of(d).len() == 0,
{
    let pairs = order::keys(d.missing_deps@);
    let found = cycles::list_views(d.cycles@);
    assert(pairs.len() == d.missing_deps@.len());
    assert(found.len() == d.cycles@.len());
    if 0 <= i < pairs.len() {
        assert(pairs[i] == (d.missing_deps@[i].0@, d.missing_deps@[i].1@));
        lemma_missing_report_at(pairs, i);
        let (before, after) = choose|before: Seq<char>, after: Seq<char>|
            missing_report(pairs) == #[trigger] (before + missing_line(pairs[i]) + after);
        let rest = after + cycle_report(found);
        assert(report_of(d) =~= before + missing_line(pairs[i]) + rest);
    }
}

/// The report has a line about every cycle, with the ids along it, after those
/// about missing dependencies.
pub proof fn lemma_cycle_in_report(d: AssemblyDiagnostics, i: int)
    ensures
        0 <= i < d.cycles@.len() ==> exists|before: Seq<char>, after: Seq<char>|
            report_of(d) == #[trigger] (before + ("dep cycle: "@ + text::joined_with(
                text::views(d.cycles@[i]@),
                " → "@,
            ) + "\n"@) + after),
{
    let pairs = order::keys(d.missing_deps@);
    let found = cycles::list_views(d.cycles@);
    assert(found.len() == d.cycles@.len());
    if 0 <= i < found.len() {
        assert(found[i] == text::views(d.cycles@[i]@));
        lemma_cycle_report_at(found, i);
        let (before, after) = choose|before: Seq<char>, after: Seq<char>|
            cycle_report(found) == #[trigger] (before + cycle_line(found[i]) + after);
        let start = missing_report(pairs) + before;
        assert(report_of(d) =~= start + cycle_line(found[i]) + after);
    }
}

/// A project that is assembled has a crate for every description, in their order,
/// with what the description says of it.
pub proof fn lemma_project_answer(
    bazel: &str,
    workspace: &str,
    toolchain: ToolchainInfo,
    specs: &CrateSpecs,
    launcher_dir: &Option<String>,
    r: Result<RustProject, DiscoveryError>,
    i: int,
)
    requires
        call_ensures(
            assemble_rust_project,
            (bazel, workspace, toolchain, specs, launcher_dir),
            r,
        ),
        0 <= i < specs.values().len(),
    ensures
        r matches Ok(project) && {
            let c = project.crates@[i];
            let spec = specs.values()[i];
            &&& project.sysroot@ == toolchain.sysroot@
            &&& project.sysroot_src@ == toolchain.sysroot_src@
            &&& project.crates@.len() == specs.values().len()
            &&& text::same_texts(c.cfg@, spec.cfg@)
            &&& c.root_module@ == spec.root_module@
            &&& c.edition@ == spec.edition@
            &&& c.display_name matches Some(name) && name@ == spec.display_name@
            &&& c.target matches Some(target) && target@ == spec.target@
            &&& c.env matches Some(env) && env@ == spec.env@
            &&& c.is_workspace_member == Some(spec.is_workspace_member)
            &&& c.is_proc_macro <==> spec.proc_macro_dylib_path is Some
        },
{
    let project = r->Ok_0;
    lemma_crate_as_described(project.crates@, specs.values(), i);
}

} // verus!
