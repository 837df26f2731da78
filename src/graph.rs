//! The module graph as this analysis reads it: modules, the runtimes each runs in,
//! and their outgoing connections with the graph's answers per runtime.
use vstd::prelude::*;
use crate::lattice::ExportsInfo;
use crate::names::{name_set, path_names};

verus! {

/// Liveness of a connection in one runtime.
#[derive(PartialEq, Eq, Structural, Clone, Copy, Debug)]
pub enum ConnectionState {
    Active,
    Inactive,
    CircularConnection,
    TransitiveOnly,
}

/// The kind of a dependency edge.
#[derive(PartialEq, Eq, Structural, Clone, Copy, Debug)]
pub enum DependencyType {
    /// A static named import.
    EsmImportSpecifier,
    /// The edge from a provide module to the module it provides.
    ProvideModuleForShared,
    Other,
}

/// What the graph answers for a connection in one runtime: whether it is live, and
/// the export paths it references there.
pub struct RuntimeReference {
    pub runtime: String,
    pub state: ConnectionState,
    pub referenced: Vec<Vec<String>>,
}

/// An outgoing edge of a module.
pub struct Connection {
    pub dependency_type: DependencyType,
    pub request: String,
    /// Index of the module the edge resolves to.
    pub target: usize,
    pub per_runtime: Vec<RuntimeReference>,
}

/// A module of the graph.
pub struct Module {
    /// The runtimes the module is scheduled in, by name.
    pub runtimes: Vec<String>,
    pub connections: Vec<Connection>,
    /// The share key, where this module provides a shared dependency.
    pub provide_share_key: Option<String>,
    pub side_effect_free: Option<bool>,
    pub exports_info: ExportsInfo,
}

pub struct ModuleGraph {
    pub modules: Vec<Module>,
}

/// The connection is definitely live in `rt`.
pub open spec fn is_live(c: Connection, rt: Seq<char>) -> bool {
    exists|i: int|
        0 <= i < c.per_runtime.len() && (#[trigger] c.per_runtime@[i]).runtime@ == rt
            && c.per_runtime@[i].state == ConnectionState::Active
}

/// The connection is live in `rt` and references at least one export path there.
pub open spec fn has_refs(c: Connection, rt: Seq<char>) -> bool {
    exists|i: int|
        0 <= i < c.per_runtime.len() && (#[trigger] c.per_runtime@[i]).runtime@ == rt
            && c.per_runtime@[i].state == ConnectionState::Active
            && c.per_runtime@[i].referenced.len() > 0
}

/// The names on the export paths that a live connection references in `rt`.
pub open spec fn live_names(c: Connection, rt: Seq<char>) -> Set<Seq<char>> {
    Set::new(
        |x: Seq<char>|
            exists|i: int|
                0 <= i < c.per_runtime.len() && (#[trigger] c.per_runtime@[i]).runtime@ == rt
                    && c.per_runtime@[i].state == ConnectionState::Active && path_names(
                    c.per_runtime@[i].referenced@,
                ).contains(x),
    )
}

/// Every connection answers at most once per runtime.
pub open spec fn connection_wf(c: Connection) -> bool {
    forall|i: int, j: int|
        0 <= i < c.per_runtime.len() && 0 <= j < c.per_runtime.len() && i != j
            ==> (#[trigger] c.per_runtime@[i]).runtime@ != (#[trigger] c.per_runtime@[j]).runtime@
}

impl ModuleGraph {
    /// Every edge resolves to a module of the graph, and answers at most once per
    /// runtime.
    pub open spec fn wf(&self) -> bool {
        forall|m: int, c: int|
            0 <= m < self.modules.len() && 0 <= c < self.modules@[m].connections.len()
                ==> (#[trigger] self.modules@[m].connections@[c]).target < self.modules.len()
                && connection_wf(self.modules@[m].connections@[c])
    }
}

/// Where a well-formed connection is live in `rt`, the position of its answer there.
pub fn live_reference(c: &Connection, rt: &String) -> (r: Option<usize>)
    requires
        connection_wf(*c),
    ensures
        r is None ==> !is_live(*c, rt@),
        r matches Some(i) ==> i < c.per_runtime.len() && c.per_runtime@[i as int].runtime@ == rt@
            && c.per_runtime@[i as int].state == ConnectionState::Active && is_live(*c, rt@)
            && (has_refs(*c, rt@) <==> c.per_runtime@[i as int].referenced.len() > 0)
            && live_names(*c, rt@) == path_names(c.per_runtime@[i as int].referenced@),
{
    let mut i: usize = 0;
    while i < c.per_runtime.len()
        invariant
            0 <= i <= c.per_runtime.len(),
            connection_wf(*c),
            forall|j: int| 0 <= j < i ==> (#[trigger] c.per_runtime@[j]).runtime@ != rt@,
        decreases c.per_runtime.len() - i,
    {
        if c.per_runtime[i].runtime == *rt {
            if c.per_runtime[i].state == ConnectionState::Active {
                proof {
                    let ii = i as int;
                    assert(c.per_runtime@[ii].runtime@ == rt@);
                    assert(live_names(*c, rt@) =~= path_names(c.per_runtime@[ii].referenced@)) by {
                        assert forall|x: Seq<char>| #[trigger] live_names(*c, rt@).contains(x) implies path_names(c.per_runtime@[ii].referenced@).contains(x) by {
                            let j = choose|j: int|
                                0 <= j < c.per_runtime.len() && (#[trigger] c.per_runtime@[j]).runtime@ == rt@
                                    && c.per_runtime@[j].state == ConnectionState::Active && path_names(
                                    c.per_runtime@[j].referenced@,
                                ).contains(x);
                            assert(j == ii);
                        }
                    }
                    if has_refs(*c, rt@) {
                        let j = choose|j: int|
                            0 <= j < c.per_runtime.len() && (#[trigger] c.per_runtime@[j]).runtime@ == rt@
                                && c.per_runtime@[j].state == ConnectionState::Active
                                && c.per_runtime@[j].referenced.len() > 0;
                        assert(j == ii);
                    }
                }
                return Some(i);
            } else {
                assert forall|j: int| 0 <= j < c.per_runtime.len() implies !((#[trigger] c.per_runtime@[j]).runtime@ == rt@
                    && c.per_runtime@[j].state == ConnectionState::Active) by {
                    if j != i {
                        assert(c.per_runtime@[j].runtime@ != c.per_runtime@[i as int].runtime@);
                    }
                }
                return None;
            }
        }
        i = i + 1;
    }
    None
}

} // verus!
