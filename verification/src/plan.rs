//! The build's decisions around the compiler runs: whether a build can
//! start, which main file each binary has, and which objects it links.

use vstd::prelude::*;
use crate::commands::{link_args, link_arguments};
use crate::config::{BinTarget, Package};
use crate::errors::BuildError;
use crate::graph::{dependency_edges, dfs_reversed_preorder, is_acyclic, ModuleGraph};
use crate::hashing::{deep_hashes, hashes_consistent};
use crate::schedule::WaveScheduler;
use crate::text::{string_views, text_equal, trim_leading_slashes, trim_slashes_front};
use crate::unit::TranslationUnit;

verus! {

/// What a build starts from: the scheduler over the dependency graph, with
/// nothing built, and the deep hash of every unit.
pub struct BuildPlan {
    pub scheduler: WaveScheduler,
    pub deep_hashes: Vec<String>,
}

/// Prepares a build of `units`: fails when there are no units, or when their
/// imports form a cycle; otherwise builds the dependency graph and computes
/// every unit's deep hash.
pub fn plan_build(units: &Vec<TranslationUnit>) -> (r: Result<BuildPlan, BuildError>)
    requires
        units.len() < u32::MAX,
        dependency_edges(units@).len() < u32::MAX,
    ensures
        r matches Err(BuildError::NoSources) <==> units.len() == 0,
        r matches Err(BuildError::CyclicDependency) <==> units.len() > 0
            && !is_acyclic(units.len() as nat, dependency_edges(units@)),
        r is Err ==> r matches Err(BuildError::NoSources) || r matches Err(BuildError::CyclicDependency),
        r matches Ok(plan) ==> {
            &&& plan.scheduler.num_nodes() == units.len()
            &&& plan.scheduler.edges() == dependency_edges(units@)
            &&& plan.scheduler.done() == Seq::new(units.len() as nat, |i: int| false)
            &&& hashes_consistent(units@, dependency_edges(units@), string_views(plan.deep_hashes@))
            &&& forall|i: int| 0 <= i < plan.deep_hashes@.len() ==> (#[trigger] plan.deep_hashes@[i])@.len() == 64
                && vstd::utf8::is_ascii_chars(plan.deep_hashes@[i]@)
        },
{
    if units.len() == 0 {
        return Err(BuildError::NoSources);
    }
    let graph = ModuleGraph::from_units(units);
    match deep_hashes(units, &graph) {
        None => Err(BuildError::CyclicDependency),
        Some(hashes) => Ok(BuildPlan { scheduler: WaveScheduler::new(graph), deep_hashes: hashes }),
    }
}

/// The index of the first `true`, if any.
pub fn first_match(matches: &Vec<bool>) -> (r: Option<usize>)
    ensures
        r matches Some(i) ==> i < matches.len() && matches@[i as int]
            && forall|j: int| 0 <= j < i ==> !#[trigger] matches@[j],
        r is None ==> forall|j: int| 0 <= j < matches.len() ==> !#[trigger] matches@[j],
{
    let mut i: usize = 0;
    while i < matches.len()
        invariant
            0 <= i <= matches.len(),
            forall|j: int| 0 <= j < i ==> !#[trigger] matches@[j],
        decreases matches.len() - i,
    {
        if matches[i] {
            return Some(i);
        }
        i += 1;
    }
    None
}

/// The path suffix that a binary's main file is looked up by: its `path`
/// without leading slashes.
pub fn main_file_suffix(bin: &BinTarget) -> (r: String)
    ensures
        r@ == trim_leading_slashes(bin.path@),
{
    trim_slashes_front(bin.path.as_str())
}

/// The binary named `target`, or the first binary when no name is given.
pub fn select_target(bins: &Vec<BinTarget>, target: Option<&str>) -> (r: Option<usize>)
    ensures
        target is None ==> r == (if bins.len() > 0 { Some(0usize) } else { None::<usize> }),
        target matches Some(t) ==> (r matches Some(i) ==> i < bins.len() && bins@[i as int].name@ == t@
            && forall|j: int| 0 <= j < i ==> (#[trigger] bins@[j]).name@ != t@),
        target matches Some(t) ==> (r is None ==> forall|j: int| 0 <= j < bins.len() ==> (#[trigger] bins@[j]).name@ != t@),
{
    match target {
        None => if bins.len() > 0 { Some(0) } else { None },
        Some(t) => {
            let mut i: usize = 0;
            while i < bins.len()
                invariant
                    0 <= i <= bins.len(),
                    target == Some(t),
                    forall|j: int| 0 <= j < i ==> (#[trigger] bins@[j]).name@ != t@,
                decreases bins.len() - i,
            {
                if text_equal(bins[i].name.as_str(), t) {
                    return Some(i);
                }
                i += 1;
            }
            None
        },
    }
}

/// The object files, in `order`, of the units that have one.
pub open spec fn present_objects(order: Seq<usize>, objects: Seq<Option<String>>) -> Seq<Seq<char>>
    decreases order.len(),
{
    if order.len() == 0 {
        Seq::empty()
    } else {
        let rest = present_objects(order.drop_last(), objects);
        match objects[order.last() as int] {
            Some(o) => rest.push(o@),
            None => rest,
        }
    }
}

/// The objects to link for the binary whose main file is unit `main`: the
/// object of `main` and of every unit it depends on, directly or not, in the
/// order of a depth-first search against the import edges.
pub fn link_objects(graph: &ModuleGraph, main: usize, objects: &Vec<Option<String>>) -> (r: Vec<String>)
    requires
        main < graph.num_nodes(),
        objects.len() == graph.num_nodes(),
    ensures
        string_views(r@) == present_objects(
            dfs_reversed_preorder(graph.num_nodes(), graph.edges(), main),
            objects@,
        ),
{
    let order = graph.dependency_closure(main);
    let mut r: Vec<String> = Vec::new();
    let mut i: usize = 0;
    while i < order.len()
        invariant
            0 <= i <= order@.len(),
            objects.len() == graph.num_nodes(),
            forall|k: int| 0 <= k < order@.len() ==> #[trigger] order@[k] < graph.num_nodes(),
            string_views(r@) == present_objects(order@.take(i as int), objects@),
        decreases order@.len() - i,
    {
        let v = order[i];
        assert(order@.take(i + 1).drop_last() =~= order@.take(i as int));
        match &objects[v] {
            Some(o) => {
                r.push(o.clone());
                assert(string_views(r@) =~= present_objects(order@.take(i + 1), objects@));
            },
            None => {},
        }
        i += 1;
    }
    assert(order@.take(order@.len() as int) =~= order@);
    r
}

/// The linker arguments for `bin`, whose main file is the first unit that
/// `matches` marks (the units whose path ends with the main file's path):
/// the objects that `link_objects` gives for it, linked into `output`. Fails
/// when no unit matches.
pub fn plan_link(
    pkg: &Package,
    graph: &ModuleGraph,
    bin: &BinTarget,
    matches: &Vec<bool>,
    objects: &Vec<Option<String>>,
    output: &str,
) -> (r: Result<Vec<String>, BuildError>)
    requires
        matches.len() == graph.num_nodes(),
        objects.len() == graph.num_nodes(),
    ensures
        r is Err <==> forall|j: int| 0 <= j < matches.len() ==> !#[trigger] matches@[j],
        r matches Err(e) ==> e matches BuildError::MainFileNotFound { path, target }
            && path@ == bin.path@ && target@ == bin.name@,
        r matches Ok(args) ==> exists|main: int| {
            &&& 0 <= main < matches.len()
            &&& #[trigger] matches@[main]
            &&& forall|j: int| 0 <= j < main ==> !#[trigger] matches@[j]
            &&& string_views(args@) == link_args(
                *pkg,
                present_objects(dfs_reversed_preorder(graph.num_nodes(), graph.edges(), main as usize), objects@),
                output@,
            )
        },
{
    match first_match(matches) {
        None => Err(BuildError::MainFileNotFound { path: bin.path.clone(), target: bin.name.clone() }),
        Some(main) => {
            let objs = link_objects(graph, main, objects);
            let args = link_arguments(pkg, &objs, output);
            assert(matches@[main as int]);
            Ok(args)
        },
    }
}

/// Once every unit has its object, a binary links exactly the objects of the
/// units in the search order, one for each: with the search visiting `main`
/// and everything it depends on once each, nothing needed is missing and
/// nothing is linked twice.
pub proof fn lemma_full_build_links_closure(order: Seq<usize>, objects: Seq<Option<String>>)
    requires
        forall|k: int| 0 <= k < order.len() ==> #[trigger] order[k] < objects.len(),
        forall|v: int| 0 <= v < objects.len() ==> #[trigger] objects[v] is Some,
    ensures
        present_objects(order, objects) == order.map_values(|v: usize| objects[v as int]->Some_0@),
    decreases order.len(),
{
    if order.len() > 0 {
        assert forall|k: int| 0 <= k < order.drop_last().len() implies #[trigger] order.drop_last()[k] < objects.len() by {
            assert(order.drop_last()[k] == order[k]);
        }
        lemma_full_build_links_closure(order.drop_last(), objects);
        assert(order[order.len() - 1] < objects.len());
        assert(objects[order.last() as int] is Some);
        assert(present_objects(order, objects) =~= order.map_values(|v: usize| objects[v as int]->Some_0@));
    }
}

} // verus!
