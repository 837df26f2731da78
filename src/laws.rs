//! Laws of the optimisation pass, stated over the contracts of the library.
use vstd::prelude::*;
use crate::graph::ModuleGraph;
use crate::lattice::{ExportsInfo, UsageState};
use crate::marker::{after_used_by, gate_passes, is_marked_by, marked_other_by, marked_state_by, same_shape};
use crate::plugin::{has_tree_key, is_last_wins, OptimizeDependencyReferencedExportsPlugin, OptimizeSharedConfig};

verus! {

/// Marking a lattice a second time from the same observations changes nothing.
pub proof fn lemma_marking_idempotent(
    l0: ExportsInfo,
    l1: ExportsInfo,
    l2: ExportsInfo,
    used: spec_fn(Seq<char>) -> Set<Seq<char>>,
    flat: Set<Seq<char>>,
)
    requires
        is_marked_by(l0, l1, used, flat),
        is_marked_by(l1, l2, used, flat),
    ensures
        forall|x: Seq<char>| #[trigger] l2.is_named(x) == l1.is_named(x),
        forall|x: Seq<char>, rt: Seq<char>| #[trigger] l2.state_of(x, rt) == l1.state_of(x, rt),
        forall|rt: Seq<char>| #[trigger] l2.other_at(rt) == l1.other_at(rt),
{
    assert forall|rt: Seq<char>| #[trigger] gate_passes(l1, used(rt), rt) implies gate_passes(l0, used(rt), rt)
        && forall|x: Seq<char>| l1.is_named(x) ==> #[trigger] l1.state_of(x, rt) != UsageState::Unknown by {
        let u = used(rt);
        if !gate_passes(l0, u, rt) {
            let y = choose|y: Seq<char>|
                l0.is_named(y) && #[trigger] l0.state_of(y, rt) != UsageState::Unknown && !u.contains(y);
            assert(l1.state_of(y, rt) == marked_state_by(l0, u, flat, y, rt));
            assert(l1.is_named(y));
        }
        assert forall|x: Seq<char>| l1.is_named(x) implies #[trigger] l1.state_of(x, rt) != UsageState::Unknown by {
            assert(l1.state_of(x, rt) == marked_state_by(l0, u, flat, x, rt));
        }
    }
    assert forall|x: Seq<char>, rt: Seq<char>| #[trigger] l2.state_of(x, rt) == l1.state_of(x, rt) by {
        assert(l2.state_of(x, rt) == marked_state_by(l1, used(rt), flat, x, rt));
        assert(l1.state_of(x, rt) == marked_state_by(l0, used(rt), flat, x, rt));
        if gate_passes(l1, used(rt), rt) && l1.is_named(x) {
            assert(l1.state_of(x, rt) != UsageState::Unknown);
        }
        if !l1.is_named(x) && flat.contains(x) {
            assert(l1.is_named(x));
        }
    }
    assert forall|rt: Seq<char>| #[trigger] l2.other_at(rt) == l1.other_at(rt) by {
        assert(l2.other_at(rt) == marked_other_by(l1, used(rt), rt));
        assert(l1.other_at(rt) == marked_other_by(l0, used(rt), rt));
    }
}

/// Marking never takes back a settled state: a used export stays used, an unused
/// export becomes at most used (where it was observed), and only an unknown export can
/// become unused; the catch-all entry changes only from unknown to unused.
pub proof fn lemma_marking_monotonic(
    l0: ExportsInfo,
    l1: ExportsInfo,
    used: spec_fn(Seq<char>) -> Set<Seq<char>>,
    flat: Set<Seq<char>>,
)
    requires
        is_marked_by(l0, l1, used, flat),
    ensures
        forall|x: Seq<char>, rt: Seq<char>|
            #[trigger] l0.state_of(x, rt) == UsageState::Used ==> l1.state_of(x, rt) == UsageState::Used,
        forall|x: Seq<char>, rt: Seq<char>|
            #[trigger] l0.state_of(x, rt) == UsageState::Unused && !used(rt).contains(x) ==> l1.state_of(x, rt)
                == UsageState::Unused,
        forall|x: Seq<char>, rt: Seq<char>|
            #[trigger] l1.state_of(x, rt) == UsageState::Unused ==> l0.state_of(x, rt) != UsageState::Used,
        forall|x: Seq<char>, rt: Seq<char>| used(rt).contains(x) ==> #[trigger] l1.state_of(x, rt) == UsageState::Used,
        forall|rt: Seq<char>|
            #[trigger] l0.other_at(rt) != UsageState::Unknown ==> l1.other_at(rt) == l0.other_at(rt),
{
    assert forall|x: Seq<char>, rt: Seq<char>| #[trigger] l0.state_of(x, rt) == UsageState::Used implies l1.state_of(x, rt)
        == UsageState::Used by {
        assert(l1.state_of(x, rt) == marked_state_by(l0, used(rt), flat, x, rt));
    }
    assert forall|x: Seq<char>, rt: Seq<char>|
        #[trigger] l0.state_of(x, rt) == UsageState::Unused && !used(rt).contains(x) implies l1.state_of(x, rt)
            == UsageState::Unused by {
        assert(l1.state_of(x, rt) == marked_state_by(l0, used(rt), flat, x, rt));
    }
    assert forall|x: Seq<char>, rt: Seq<char>|
        #[trigger] l1.state_of(x, rt) == UsageState::Unused implies l0.state_of(x, rt) != UsageState::Used by {
        assert(l1.state_of(x, rt) == marked_state_by(l0, used(rt), flat, x, rt));
    }
    assert forall|x: Seq<char>, rt: Seq<char>| used(rt).contains(x) implies #[trigger] l1.state_of(x, rt) == UsageState::Used by {
        assert(l1.state_of(x, rt) == marked_state_by(l0, used(rt), flat, x, rt));
    }
    assert forall|rt: Seq<char>| #[trigger] l0.other_at(rt) != UsageState::Unknown implies l1.other_at(rt) == l0.other_at(rt) by {
        assert(l1.other_at(rt) == marked_other_by(l0, used(rt), rt));
    }
}

/// Where the lattice already settled an export `x` in `rt` that was not observed there,
/// nothing becomes unused in `rt`: the safety check does not pass.
pub proof fn lemma_gate_blocks_unused(
    l0: ExportsInfo,
    l1: ExportsInfo,
    used: spec_fn(Seq<char>) -> Set<Seq<char>>,
    flat: Set<Seq<char>>,
    x: Seq<char>,
    rt: Seq<char>,
)
    requires
        is_marked_by(l0, l1, used, flat),
        l0.is_named(x),
        l0.state_of(x, rt) != UsageState::Unknown,
        !used(rt).contains(x),
    ensures
        !gate_passes(l0, used(rt), rt),
        forall|y: Seq<char>| #[trigger] l1.state_of(y, rt) == after_used_by(l0, used(rt), y, rt),
        forall|y: Seq<char>| #[trigger] l1.state_of(y, rt) == UsageState::Unused ==> l0.state_of(y, rt) == UsageState::Unused,
        l1.other_at(rt) == l0.other_at(rt),
{
    assert(l1.other_at(rt) == marked_other_by(l0, used(rt), rt));
    assert forall|y: Seq<char>| #[trigger] l1.state_of(y, rt) == after_used_by(l0, used(rt), y, rt) by {
        assert(l1.state_of(y, rt) == marked_state_by(l0, used(rt), flat, y, rt));
    }
}

/// In a runtime where nothing was observed, marking leaves the lattice as it was.
pub proof fn lemma_unobserved_runtime_untouched(
    l0: ExportsInfo,
    l1: ExportsInfo,
    used: spec_fn(Seq<char>) -> Set<Seq<char>>,
    flat: Set<Seq<char>>,
    rt: Seq<char>,
)
    requires
        is_marked_by(l0, l1, used, flat),
        used(rt) == Set::<Seq<char>>::empty(),
    ensures
        forall|y: Seq<char>| #[trigger] l1.state_of(y, rt) == l0.state_of(y, rt),
        l1.other_at(rt) == l0.other_at(rt),
{
    assert(l1.other_at(rt) == marked_other_by(l0, used(rt), rt));
    assert forall|y: Seq<char>| #[trigger] l1.state_of(y, rt) == l0.state_of(y, rt) by {
        assert(l1.state_of(y, rt) == marked_state_by(l0, used(rt), flat, y, rt));
    }
}

impl OptimizeDependencyReferencedExportsPlugin {
    /// An ignored runtime never gets a bucket, never collects a name and is never
    /// observed, whatever the graph holds; so marking leaves it alone.
    pub proof fn lemma_ignored_runtime_excluded(&self, g: ModuleGraph, k: Seq<char>, r: Seq<char>)
        requires
            self.ignored(r),
        ensures
            !self.pass_bucket(g, k, r),
            self.pass_names(g, k, r) == Set::<Seq<char>>::empty(),
            !self.graph_observed(g, g.modules.len() as int, r),
    {
        let n = g.modules.len() as int;
        assert forall|x: Seq<char>| !#[trigger] self.pass_names(g, k, r).contains(x) by {
            if self.graph_names(g, n, k, r).contains(x) {
                let m = choose|m: int| 0 <= m < n && (#[trigger] self.module_names(g.modules@[m], g.modules@[m].connections.len() as int, k, r)).contains(x);
                let mo = g.modules@[m];
                let c = choose|c: int| 0 <= c < mo.connections.len() && (#[trigger] self.hit_names(mo.connections@[c], mo.runtimes@, k, r)).contains(x);
            }
        }
        assert(self.pass_names(g, k, r) =~= Set::<Seq<char>>::empty());
        if self.graph_observed(g, n, r) {
            let m = choose|m: int| 0 <= m < n && #[trigger] self.module_observed(g.modules@[m], g.modules@[m].connections.len() as int, r);
            let mo = g.modules@[m];
            let c = choose|c: int| 0 <= c < mo.connections.len() && #[trigger] self.hit(mo.connections@[c], mo.runtimes@, mo.connections@[c].request@, r);
        }
        if self.graph_signal_hit(g, n, k, r) {
            let m = choose|m: int| 0 <= m < n && #[trigger] self.module_signal_hit(g.modules@[m], g.modules@[m].connections.len() as int, k, r);
            let mo = g.modules@[m];
            let c = choose|c: int| 0 <= c < mo.connections.len() && #[trigger] self.signal_hit(mo.connections@[c], mo.runtimes@, k, r);
        }
    }

    /// A share key with no configuration that enables pruning never appears in the
    /// table, whatever the graph's edges reference.
    pub proof fn lemma_untreeshaken_absent(
        &self,
        configs: Seq<OptimizeSharedConfig>,
        g: ModuleGraph,
        k: Seq<char>,
        r: Seq<char>,
    )
        requires
            is_last_wins(self.shared_map@, configs),
            !has_tree_key(configs, k),
        ensures
            !self.is_shared(k),
            !self.pass_bucket(g, k, r),
            self.pass_names(g, k, r) == Set::<Seq<char>>::empty(),
    {
        let n = g.modules.len() as int;
        assert forall|x: Seq<char>| !#[trigger] self.pass_names(g, k, r).contains(x) by {
            if self.graph_names(g, n, k, r).contains(x) {
                let m = choose|m: int| 0 <= m < n && (#[trigger] self.module_names(g.modules@[m], g.modules@[m].connections.len() as int, k, r)).contains(x);
                let mo = g.modules@[m];
                let c = choose|c: int| 0 <= c < mo.connections.len() && (#[trigger] self.hit_names(mo.connections@[c], mo.runtimes@, k, r)).contains(x);
            }
        }
        assert(self.pass_names(g, k, r) =~= Set::<Seq<char>>::empty());
        if self.graph_signal_hit(g, n, k, r) {
            let m = choose|m: int| 0 <= m < n && #[trigger] self.module_signal_hit(g.modules@[m], g.modules@[m].connections.len() as int, k, r);
            let mo = g.modules@[m];
            let c = choose|c: int| 0 <= c < mo.connections.len() && #[trigger] self.signal_hit(mo.connections@[c], mo.runtimes@, k, r);
        }
    }

    /// Where no live import of `k` in `r` references an export path, and neither
    /// configuration nor override forces an export of `k`, `k` gets no bucket in `r`.
    pub proof fn lemma_empty_signal_suppressed(&self, g: ModuleGraph, k: Seq<char>, r: Seq<char>)
        requires
            !self.has_signal(k),
            forall|m: int, c: int|
                0 <= m < g.modules.len() && 0 <= c < g.modules@[m].connections.len() && (#[trigger] g.modules@[m].connections@[c]).request@ == k
                    ==> !crate::graph::has_refs(g.modules@[m].connections@[c], r),
        ensures
            !self.pass_bucket(g, k, r),
    {
        let n = g.modules.len() as int;
        if self.graph_signal_hit(g, n, k, r) {
            let m = choose|m: int| 0 <= m < n && #[trigger] self.module_signal_hit(g.modules@[m], g.modules@[m].connections.len() as int, k, r);
            let mo = g.modules@[m];
            let c = choose|c: int| 0 <= c < mo.connections.len() && #[trigger] self.signal_hit(mo.connections@[c], mo.runtimes@, k, r);
            assert(g.modules@[m].connections@[c].request@ == k);
        }
    }

    /// What a pass records depends only on the graph's shape: two graphs whose modules
    /// have the same runtimes, connections and provided keys give the same table. A
    /// pass changes no module's shape, so a second pass records the same table.
    pub proof fn lemma_pass_table_depends_on_shape(&self, g0: ModuleGraph, g1: ModuleGraph)
        requires
            g0.modules.len() == g1.modules.len(),
            forall|m: int| 0 <= m < g0.modules.len() ==> same_shape(g0.modules@[m], #[trigger] g1.modules@[m]),
        ensures
            forall|k: Seq<char>, r: Seq<char>| #[trigger] self.pass_bucket(g0, k, r) == self.pass_bucket(g1, k, r),
            forall|k: Seq<char>, r: Seq<char>| #[trigger] self.pass_names(g0, k, r) == self.pass_names(g1, k, r),
            forall|r: Seq<char>| #[trigger] self.graph_observed(g0, g0.modules.len() as int, r) == self.graph_observed(g1, g1.modules.len() as int, r),
    {
        let n = g0.modules.len() as int;
        assert forall|m: int| 0 <= m < n implies {
            &&& g0.modules@[m].connections == (#[trigger] g1.modules@[m]).connections
            &&& g0.modules@[m].runtimes == g1.modules@[m].runtimes
        } by {
            assert(same_shape(g0.modules@[m], g1.modules@[m]));
        }
        assert forall|k: Seq<char>, r: Seq<char>| #[trigger] self.graph_signal_hit(g0, n, k, r) == self.graph_signal_hit(g1, n, k, r) by {
            if self.graph_signal_hit(g0, n, k, r) {
                let m = choose|m: int| 0 <= m < n && #[trigger] self.module_signal_hit(g0.modules@[m], g0.modules@[m].connections.len() as int, k, r);
                assert(self.module_signal_hit(g1.modules@[m], g1.modules@[m].connections.len() as int, k, r));
            }
            if self.graph_signal_hit(g1, n, k, r) {
                let m = choose|m: int| 0 <= m < n && #[trigger] self.module_signal_hit(g1.modules@[m], g1.modules@[m].connections.len() as int, k, r);
                assert(self.module_signal_hit(g0.modules@[m], g0.modules@[m].connections.len() as int, k, r));
            }
        }
        assert forall|r: Seq<char>| #[trigger] self.graph_observed(g0, n, r) == self.graph_observed(g1, n, r) by {
            if self.graph_observed(g0, n, r) {
                let m = choose|m: int| 0 <= m < n && #[trigger] self.module_observed(g0.modules@[m], g0.modules@[m].connections.len() as int, r);
                assert(self.module_observed(g1.modules@[m], g1.modules@[m].connections.len() as int, r));
            }
            if self.graph_observed(g1, n, r) {
                let m = choose|m: int| 0 <= m < n && #[trigger] self.module_observed(g1.modules@[m], g1.modules@[m].connections.len() as int, r);
                assert(self.module_observed(g0.modules@[m], g0.modules@[m].connections.len() as int, r));
            }
        }
        assert forall|k: Seq<char>, r: Seq<char>| #[trigger] self.graph_names(g0, n, k, r) == self.graph_names(g1, n, k, r) by {
            assert forall|m: int| 0 <= m < n implies #[trigger] self.module_names(g0.modules@[m], g0.modules@[m].connections.len() as int, k, r)
                == self.module_names(g1.modules@[m], g1.modules@[m].connections.len() as int, k, r) by {
                assert(self.module_names(g0.modules@[m], g0.modules@[m].connections.len() as int, k, r)
                    =~= self.module_names(g1.modules@[m], g1.modules@[m].connections.len() as int, k, r));
            }
            assert forall|x: Seq<char>| #[trigger] self.graph_names(g0, n, k, r).contains(x) == self.graph_names(g1, n, k, r).contains(x) by {
                if self.graph_names(g0, n, k, r).contains(x) {
                    let m = choose|m: int| 0 <= m < n && (#[trigger] self.module_names(g0.modules@[m], g0.modules@[m].connections.len() as int, k, r)).contains(x);
                    assert(self.module_names(g1.modules@[m], g1.modules@[m].connections.len() as int, k, r).contains(x));
                }
                if self.graph_names(g1, n, k, r).contains(x) {
                    let m = choose|m: int| 0 <= m < n && (#[trigger] self.module_names(g1.modules@[m], g1.modules@[m].connections.len() as int, k, r)).contains(x);
                    assert(self.module_names(g0.modules@[m], g0.modules@[m].connections.len() as int, k, r).contains(x));
                }
            }
            assert(self.graph_names(g0, n, k, r) =~= self.graph_names(g1, n, k, r));
        }
    }
}

} // verus!
