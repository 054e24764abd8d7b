//! The resolved dependency graph, as the engine reads it.

use vstd::prelude::*;

verus! {

/// One resolved package. Its identity is its position in the graph.
#[derive(Debug)]
pub struct GraphNode {
    /// The package name, as a manifest would write it.
    pub name: String,
    /// The resolved version.
    pub version: String,
    /// The packages that depend on this one directly, by position.
    pub dependents: Vec<usize>,
}

/// A resolved dependency graph: every package with its direct dependents.
#[derive(Debug)]
pub struct DependencyGraph {
    pub nodes: Vec<GraphNode>,
}

/// One edge of the graph: `from` depends directly on `to`.
#[derive(Debug, Clone, Copy)]
pub struct PackageLink {
    pub from: usize,
    pub to: usize,
}

impl DependencyGraph {
    /// The number of packages.
    pub open spec fn size(&self) -> nat {
        self.nodes@.len()
    }

    /// The name of package `id`.
    pub open spec fn name_of(&self, id: int) -> Seq<char> {
        self.nodes@[id].name@
    }

    /// The direct dependents of package `id`, in the order the graph lists them.
    pub open spec fn dependents_of(&self, id: int) -> Seq<usize> {
        self.nodes@[id].dependents@
    }

    /// Every edge ends at a package of the graph.
    pub open spec fn wf(&self) -> bool {
        forall|id: int, k: int|
            0 <= id < self.size() && 0 <= k < self.dependents_of(id).len() ==> (
            #[trigger] self.dependents_of(id)[k]) < self.size()
    }

    /// The number of packages.
    pub fn package_count(&self) -> (count: usize)
        ensures
            count == self.size(),
    {
        self.nodes.len()
    }

    /// Checks that every edge ends at a package of the graph.
    pub fn is_well_formed(&self) -> (ok: bool)
        ensures
            ok == self.wf(),
    {
        let count = self.nodes.len();
        let mut id: usize = 0;
        while id < count
            invariant
                count == self.size(),
                id <= count,
                forall|i: int, k: int|
                    0 <= i < id && 0 <= k < self.dependents_of(i).len() ==> (
                    #[trigger] self.dependents_of(i)[k]) < count,
            decreases count - id,
        {
            let dependents = &self.nodes[id].dependents;
            let mut k: usize = 0;
            while k < dependents.len()
                invariant
                    count == self.size(),
                    id < count,
                    dependents@ == self.dependents_of(id as int),
                    k <= dependents.len(),
                    forall|j: int| 0 <= j < k ==> (#[trigger] dependents@[j]) < count,
                decreases dependents.len() - k,
            {
                if dependents[k] >= count {
                    return false;
                }
                k += 1;
            }
            id += 1;
        }
        true
    }
}

} // verus!
