//! The dependency graph between named render passes, kept in a
//! `solvent::DepGraph`, and what the library relies on from it.
use solvent::DepGraph;
use vstd::prelude::*;

use crate::engine::graphics::name_map::str_views;

verus! {

#[verifier::external_type_specification]
#[verifier::external_body]
#[verifier::reject_recursive_types(T)]
pub struct ExDepGraph<T: Eq>(DepGraph<T>);

/// A dependency graph as a map from each registered node to the set of
/// nodes it directly depends on.
pub type DepMap = Map<Seq<char>, Set<Seq<char>>>;

/// The registered nodes of a graph and the direct dependencies of each.
pub uninterp spec fn graph_edges(graph: DepGraph<String>) -> DepMap;

/// The nodes of a graph that were marked as already satisfied.
pub uninterp spec fn graph_satisfied(graph: DepGraph<String>) -> Set<Seq<char>>;

/// Why the dependencies of a node could not be resolved.
#[derive(Clone, Copy, Debug, PartialEq, Eq, Structural)]
pub enum DependencyError {
    /// The node was never registered.
    NoSuchNode,
    /// Following dependencies from the node runs into a cycle.
    CycleDetected,
}

/// `g` with `n` registered (a node that is new has no dependencies yet).
pub open spec fn with_node(g: DepMap, n: Seq<char>) -> DepMap {
    if g.contains_key(n) {
        g
    } else {
        g.insert(n, Set::empty())
    }
}

/// `g` after `n` has been made to depend on each node of `ds`; every node
/// named is registered.
pub open spec fn with_dependencies(g: DepMap, n: Seq<char>, ds: Seq<Seq<char>>) -> DepMap {
    Map::new(
        |k: Seq<char>| g.contains_key(k) || k == n || ds.contains(k),
        |k: Seq<char>|
            (if g.contains_key(k) {
                g[k]
            } else {
                Set::empty()
            }).union(
                if k == n {
                    ds.to_set()
                } else {
                    Set::empty()
                },
            ),
    )
}

/// `p` is a walk through registered nodes along dependency edges.
pub open spec fn is_path(g: DepMap, p: Seq<Seq<char>>) -> bool {
    &&& p.len() >= 1
    &&& forall|i: int| 0 <= i < p.len() ==> #[trigger] g.contains_key(p[i])
    &&& forall|i: int| #![trigger g[p[i]]] 0 <= i < p.len() - 1 ==> g[p[i]].contains(p[i + 1])
}

/// `to` can be reached from `from` by following dependencies (every
/// registered node reaches itself).
pub open spec fn reaches(g: DepMap, from: Seq<char>, to: Seq<char>) -> bool {
    exists|p: Seq<Seq<char>>| #[trigger] is_path(g, p) && p[0] == from && p.last() == to
}

/// Some walk from `from` along dependencies comes back to a node it visited.
pub open spec fn cycle_reachable(g: DepMap, from: Seq<char>) -> bool {
    exists|p: Seq<Seq<char>>, j: int|
        #![trigger is_path(g, p), p[j]]
        is_path(g, p) && p[0] == from && 0 <= j < p.len() - 1 && p[j] == p.last()
}

/// `v` lists every node that `target` depends on, directly or not, each once,
/// every node after all of its direct dependencies, and `target` last.
pub open spec fn is_resolution(g: DepMap, target: Seq<char>, v: Seq<Seq<char>>) -> bool {
    &&& v.no_duplicates()
    &&& v.len() >= 1
    &&& v.last() == target
    &&& forall|i: int| 0 <= i < v.len() ==> reaches(g, target, #[trigger] v[i])
    &&& forall|n: Seq<char>| #[trigger] reaches(g, target, n) ==> v.contains(n)
    &&& forall|i: int, d: Seq<char>|
        0 <= i < v.len() && #[trigger] g[v[i]].contains(d) ==> v.take(i).contains(d)
}

/// In a graph where no node has dependencies, no walk comes back to a node,
/// and every node reaches only itself.
pub proof fn lemma_no_dependencies(g: DepMap, p: Seq<char>, n: Seq<char>)
    requires
        forall|k: Seq<char>| #[trigger] g.contains_key(k) ==> g[k].is_empty(),
    ensures
        !cycle_reachable(g, p),
        reaches(g, p, n) ==> n == p,
{
    if cycle_reachable(g, p) {
        let (path, j) = choose|path: Seq<Seq<char>>, j: int|
            #![trigger is_path(g, path), path[j]]
            is_path(g, path) && path[0] == p && 0 <= j < path.len() - 1 && path[j] == path.last();
        assert(g.contains_key(path[0]));
        assert(g[path[0]].contains(path[1]));
    }
    if reaches(g, p, n) {
        let path = choose|path: Seq<Seq<char>>| #[trigger]
            is_path(g, path) && path[0] == p && path.last() == n;
        if path.len() > 1 {
            assert(g.contains_key(path[0]));
            assert(g[path[0]].contains(path[1]));
        }
    }
}

/// `solvent::DepGraph::new`: an empty graph with nothing marked satisfied.
#[verifier::external_body]
pub fn new_graph() -> (g: DepGraph<String>)
    ensures
        graph_edges(g) == DepMap::empty(),
        graph_satisfied(g).is_empty(),
{
    DepGraph::new()
}

/// `solvent::DepGraph::register_node`: adds the node unless a node with the
/// same name is registered already.
#[verifier::external_body]
pub fn register_node(g: &mut DepGraph<String>, node: String)
    ensures
        graph_edges(*final(g)) == with_node(graph_edges(*old(g)), node@),
        graph_satisfied(*final(g)) == graph_satisfied(*old(g)),
{
    g.register_node(node)
}

/// `solvent::DepGraph::register_dependencies`: registers the node and each
/// dependency, and adds the dependencies to those the node already had.
#[verifier::external_body]
pub fn register_dependencies(g: &mut DepGraph<String>, node: String, deps: Vec<String>)
    ensures
        graph_edges(*final(g)) == with_dependencies(graph_edges(*old(g)), node@, str_views(deps@)),
        graph_satisfied(*final(g)) == graph_satisfied(*old(g)),
{
    g.register_dependencies(node, deps)
}

/// `Clone::clone` of a `solvent::DepGraph`: the same nodes, edges and
/// satisfied marks.
#[verifier::external_body]
pub fn clone_graph(g: &DepGraph<String>) -> (r: DepGraph<String>)
    ensures
        graph_edges(r) == graph_edges(*g),
        graph_satisfied(r) == graph_satisfied(*g),
{
    g.clone()
}

/// `solvent::DepGraph::dependencies_of`, with the iterator it returns run to
/// its end.  An unregistered target is refused; otherwise, on a graph with
/// nothing marked satisfied, the nodes come out in an order in which each
/// follows its own dependencies and the target comes last, unless a cycle can
/// be reached from the target, which is reported.  Which of several valid
/// orders comes out is not stated: solvent walks hash sets.
#[verifier::external_body]
pub fn resolve(g: &DepGraph<String>, target: &String) -> (r: Result<Vec<String>, DependencyError>)
    ensures
        (r == Err::<Vec<String>, DependencyError>(DependencyError::NoSuchNode)) <==> !graph_edges(
            *g,
        ).contains_key(target@),
        graph_satisfied(*g).is_empty() && graph_edges(*g).contains_key(target@) ==> match r {
            Ok(v) => !cycle_reachable(graph_edges(*g), target@) && is_resolution(
                graph_edges(*g),
                target@,
                str_views(v@),
            ),
            Err(e) => e == DependencyError::CycleDetected && cycle_reachable(
                graph_edges(*g),
                target@,
            ),
        },
{
    match g.dependencies_of(target) {
        Err(solvent::SolventError::NoSuchNode) => Err(DependencyError::NoSuchNode),
        Err(solvent::SolventError::CycleDetected) => Err(DependencyError::CycleDetected),
        Ok(nodes) => nodes.map(
            |n| match n {
                Ok(s) => Ok(s.clone()),
                Err(solvent::SolventError::NoSuchNode) => Err(DependencyError::NoSuchNode),
                Err(solvent::SolventError::CycleDetected) => Err(DependencyError::CycleDetected),
            },
        ).collect(),
    }
}

} // verus!
