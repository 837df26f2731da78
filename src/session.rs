//! One optimisation state per build session, created when the session starts and
//! dropped when the host invalidates it.
use vstd::prelude::*;
use crate::graph::ModuleGraph;
use crate::marker::lattices_wf;
use crate::names::name_set;
use crate::plugin::OptimizeDependencyReferencedExportsPlugin;
use crate::manifest::{manifest_patched, patch_manifest, JsonValue};
use crate::state::{flat_listing, FlatUsedExports, OptimizeCompilationState, RuntimeUsedExports};

verus! {

/// The state of the session `id`.
pub struct SessionState {
    pub id: u64,
    pub state: OptimizeCompilationState,
}

/// The states of the sessions that are alive.
pub struct SessionRegistry {
    pub sessions: Vec<SessionState>,
}

impl SessionRegistry {
    /// Each session is held once, with a well-formed state.
    pub open spec fn wf(&self) -> bool {
        &&& forall|i: int, j: int|
            0 <= i < self.sessions.len() && 0 <= j < self.sessions.len() && i != j ==> (#[trigger] self.sessions@[i]).id
                != (#[trigger] self.sessions@[j]).id
        &&& forall|i: int| 0 <= i < self.sessions.len() ==> (#[trigger] self.sessions@[i]).state.wf()
    }

    /// Session `id` is alive.
    pub open spec fn has(&self, id: u64) -> bool {
        exists|i: int| 0 <= i < self.sessions.len() && (#[trigger] self.sessions@[i]).id == id
    }

    /// An empty registry.
    pub fn new() -> (r: Self)
        ensures
            r.wf(),
            forall|id: u64| !#[trigger] r.has(id),
    {
        SessionRegistry { sessions: Vec::new() }
    }

    /// The position of session `id`.
    pub fn find(&self, id: u64) -> (r: Option<usize>)
        ensures
            r matches Some(i) ==> i < self.sessions.len() && self.sessions@[i as int].id == id,
            r is None ==> !self.has(id),
    {
        let mut i: usize = 0;
        while i < self.sessions.len()
            invariant
                0 <= i <= self.sessions.len(),
                forall|j: int| 0 <= j < i ==> (#[trigger] self.sessions@[j]).id != id,
            decreases self.sessions.len() - i,
        {
            if self.sessions[i].id == id {
                return Some(i);
            }
            i = i + 1;
        }
        None
    }

    /// Starts session `id` with a fresh state for `keys`, replacing any it had.
    pub fn create(&mut self, id: u64, keys: &Vec<String>)
        requires
            old(self).wf(),
            crate::names::distinct_names(keys@),
        ensures
            final(self).wf(),
            forall|s: u64| #[trigger] final(self).has(s) == (old(self).has(s) || s == id),
            exists|i: int| 0 <= i < final(self).sessions.len() && (#[trigger] final(self).sessions@[i]).id == id
                && final(self).sessions@[i].state.is_fresh(keys@),
            forall|i: int| 0 <= i < old(self).sessions.len() && (#[trigger] old(self).sessions@[i]).id != id
                ==> exists|j: int| 0 <= j < final(self).sessions.len() && final(self).sessions@[j] == old(self).sessions@[i],
    {
        let entry = SessionState { id, state: OptimizeCompilationState::new(keys) };
        let ghost pre = self.sessions@;
        match self.find(id) {
            Some(i) => {
                self.sessions.set(i, entry);
                proof {
                    assert forall|a: int, b: int|
                        0 <= a < self.sessions.len() && 0 <= b < self.sessions.len() && a != b implies (#[trigger] self.sessions@[a]).id
                            != (#[trigger] self.sessions@[b]).id by {
                        assert(pre[a].id != pre[b].id);
                    }
                    assert(self.sessions@[i as int].id == id);
                    assert forall|s: u64| #[trigger] self.has(s) == (old(self).has(s) || s == id) by {
                        if old(self).has(s) {
                            let j = choose|j: int| 0 <= j < pre.len() && (#[trigger] pre[j]).id == s;
                            assert(self.sessions@[j].id == s);
                        }
                        if self.has(s) {
                            let j = choose|j: int| 0 <= j < self.sessions.len() && (#[trigger] self.sessions@[j]).id == s;
                            if j != i {
                                assert(pre[j].id == s);
                            }
                        }
                    }
                    assert forall|a: int| 0 <= a < pre.len() && (#[trigger] pre[a]).id != id
                        implies exists|j: int| 0 <= j < self.sessions.len() && self.sessions@[j] == pre[a] by {
                        assert(self.sessions@[a] == pre[a]);
                    }
                }
            },
            None => {
                self.sessions.push(entry);
                proof {
                    assert forall|a: int, b: int|
                        0 <= a < self.sessions.len() && 0 <= b < self.sessions.len() && a != b implies (#[trigger] self.sessions@[a]).id
                            != (#[trigger] self.sessions@[b]).id by {
                        if a < pre.len() && b < pre.len() {
                            assert(pre[a].id != pre[b].id);
                        } else if a < pre.len() {
                            assert(self.sessions@[a] == pre[a]);
                        } else {
                            assert(self.sessions@[b] == pre[b]);
                        }
                    }
                    assert(self.sessions@[pre.len() as int].id == id);
                    assert forall|s: u64| #[trigger] self.has(s) == (old(self).has(s) || s == id) by {
                        if old(self).has(s) {
                            let j = choose|j: int| 0 <= j < pre.len() && (#[trigger] pre[j]).id == s;
                            assert(self.sessions@[j] == pre[j]);
                        }
                        if self.has(s) && s != id {
                            let j = choose|j: int| 0 <= j < self.sessions.len() && (#[trigger] self.sessions@[j]).id == s;
                            assert(self.sessions@[j] == pre[j]);
                        }
                    }
                    assert forall|a: int| 0 <= a < pre.len() && (#[trigger] pre[a]).id != id
                        implies exists|j: int| 0 <= j < self.sessions.len() && self.sessions@[j] == pre[a] by {
                        assert(self.sessions@[a] == pre[a]);
                    }
                }
            },
        }
    }

    /// Drops the state of session `id`.
    pub fn remove(&mut self, id: u64)
        requires
            old(self).wf(),
        ensures
            final(self).wf(),
            forall|s: u64| #[trigger] final(self).has(s) == (old(self).has(s) && s != id),
            forall|i: int| 0 <= i < old(self).sessions.len() && (#[trigger] old(self).sessions@[i]).id != id
                ==> exists|j: int| 0 <= j < final(self).sessions.len() && final(self).sessions@[j] == old(self).sessions@[i],
    {
        match self.find(id) {
            Some(i) => {
                let ghost pre = self.sessions@;
                self.sessions.remove(i);
                proof {
                    assert(self.sessions@ == pre.remove(i as int));
                    assert forall|a: int, b: int|
                        0 <= a < self.sessions.len() && 0 <= b < self.sessions.len() && a != b implies (#[trigger] self.sessions@[a]).id
                            != (#[trigger] self.sessions@[b]).id by {
                        let pa = if a < i { a } else { a + 1 };
                        let pb = if b < i { b } else { b + 1 };
                        assert(pre[pa].id != pre[pb].id);
                    }
                    assert forall|a: int| 0 <= a < self.sessions.len() implies (#[trigger] self.sessions@[a]).state.wf() by {
                        let pa = if a < i { a } else { a + 1 };
                        assert(self.sessions@[a] == pre[pa]);
                    }
                    assert forall|a: int| 0 <= a < pre.len() && (#[trigger] pre[a]).id != id implies exists|j: int|
                        0 <= j < self.sessions.len() && self.sessions@[j] == pre[a] by {
                        let k = if a < i { a } else { a - 1 };
                        assert(a != i);
                        assert(self.sessions@[k] == pre[a]);
                    }
                    assert forall|s: u64| #[trigger] self.has(s) == (old(self).has(s) && s != id) by {
                        if old(self).has(s) && s != id {
                            let j = choose|j: int| 0 <= j < pre.len() && (#[trigger] pre[j]).id == s;
                            let k = if j < i { j } else { j - 1 };
                            assert(self.sessions@[k] == pre[j]);
                        }
                        if self.has(s) {
                            let j = choose|j: int| 0 <= j < self.sessions.len() && (#[trigger] self.sessions@[j]).id == s;
                            let pj = if j < i { j } else { j + 1 };
                            assert(self.sessions@[j] == pre[pj]);
                            assert(pre[pj].id != pre[i as int].id);
                        }
                    }
                }
            },
            None => {},
        }
    }
}

impl OptimizeDependencyReferencedExportsPlugin {
    /// At the start of a session, gives it a fresh state, unless no share key takes
    /// part.
    pub fn compilation(&self, registry: &mut SessionRegistry, id: u64)
        requires
            self.wf(),
            old(registry).wf(),
        ensures
            final(registry).wf(),
            self.shared_map.len() == 0 ==> *final(registry) == *old(registry),
            forall|i: int| 0 <= i < old(registry).sessions.len() && (#[trigger] old(registry).sessions@[i]).id != id
                ==> exists|j: int| 0 <= j < final(registry).sessions.len() && final(registry).sessions@[j] == old(registry).sessions@[i],
            self.shared_map.len() > 0 ==> final(registry).has(id) && exists|i: int|
                0 <= i < final(registry).sessions.len() && (#[trigger] final(registry).sessions@[i]).id == id
                    && final(registry).sessions@[i].state.entries.len() == 0
                    && final(registry).sessions@[i].state.runtime_specs.len() == 0
                    && final(registry).sessions@[i].state.share_key_to_modules.len() == 0
                    && forall|k: Seq<char>| #[trigger] name_set(final(registry).sessions@[i].state.share_keys@).contains(k) == self.is_shared(k),
    {
        if self.shared_map.len() == 0 {
            return;
        }
        let keys = self.shared_keys();
        registry.create(id, &keys);
    }

    /// Runs an optimisation pass for session `id` on `g`; nothing happens where no
    /// share key takes part or the session has no state. Says whether a pass ran.
    pub fn optimize_session(&self, registry: &mut SessionRegistry, id: u64, g: &mut ModuleGraph) -> (ran: bool)
        requires
            self.wf(),
            old(registry).wf(),
            old(g).wf(),
            lattices_wf(*old(g)),
        ensures
            final(registry).wf(),
            final(g).wf(),
            lattices_wf(*final(g)),
            ran == (self.shared_map.len() > 0 && old(registry).has(id)),
            !ran ==> *final(registry) == *old(registry) && *final(g) == *old(g),
            forall|s: u64| #[trigger] final(registry).has(s) == old(registry).has(s),
            ran ==> exists|i: int|
                0 <= i < final(registry).sessions.len() && (#[trigger] final(registry).sessions@[i]).id == id
                    && forall|k: Seq<char>, r: Seq<char>| #[trigger] final(registry).sessions@[i].state.has_bucket(k, r)
                    == self.pass_bucket(*old(g), k, r),
    {
        if self.shared_map.len() == 0 {
            return false;
        }
        match registry.find(id) {
            Some(i) => {
                let ghost pre = registry.sessions@;
                let mut entry = registry.sessions.remove(i);
                self.optimize_dependencies(g, &mut entry.state);
                registry.sessions.insert(i, entry);
                proof {
                    assert forall|a: int| 0 <= a < registry.sessions.len() && a != i implies #[trigger] registry.sessions@[a] == pre[a] by {}
                    assert forall|a: int, b: int|
                        0 <= a < registry.sessions.len() && 0 <= b < registry.sessions.len() && a != b implies (#[trigger] registry.sessions@[a]).id
                            != (#[trigger] registry.sessions@[b]).id by {
                        assert(pre[a].id != pre[b].id);
                    }
                    assert forall|s: u64| #[trigger] registry.has(s) == old(registry).has(s) by {
                        if old(registry).has(s) {
                            let j = choose|j: int| 0 <= j < pre.len() && (#[trigger] pre[j]).id == s;
                            assert(registry.sessions@[j].id == s);
                        }
                        if registry.has(s) {
                            let j = choose|j: int| 0 <= j < registry.sessions.len() && (#[trigger] registry.sessions@[j]).id == s;
                            assert(pre[j].id == s);
                        }
                    }
                    assert(registry.sessions@[i as int].id == id);
                }
                true
            },
            None => false,
        }
    }

    /// Per share key, the exports used in session `id` in any runtime, sorted; empty
    /// where no share key takes part or the session has no state.
    pub fn session_flat_used_exports(&self, registry: &SessionRegistry, id: u64) -> (r: Vec<FlatUsedExports>)
        requires
            registry.wf(),
        ensures
            (self.shared_map.len() == 0 || !registry.has(id)) ==> r.len() == 0,
            self.shared_map.len() > 0 && registry.has(id) ==> exists|i: int|
                0 <= i < registry.sessions.len() && (#[trigger] registry.sessions@[i]).id == id
                    && (forall|j: int| 0 <= j < r.len() ==> name_set(registry.sessions@[i].state.share_keys@).contains(
                        (#[trigger] r@[j]).share_key@,
                    ) && crate::names::is_sorted_listing(
                        r@[j].exports@,
                        registry.sessions@[i].state.flat_used(r@[j].share_key@),
                    ) && r@[j].exports.len() > 0)
                    && (forall|k: Seq<char>|
                        name_set(registry.sessions@[i].state.share_keys@).contains(k) && #[trigger] registry.sessions@[i].state.flat_used(k)
                            != Set::<Seq<char>>::empty() ==> exists|j: int| 0 <= j < r.len() && (#[trigger] r@[j]).share_key@ == k)
                    && (forall|a: int, b: int|
                        0 <= a < r.len() && 0 <= b < r.len() && a != b ==> (#[trigger] r@[a]).share_key@ != (#[trigger] r@[b]).share_key@),
    {
        if self.shared_map.len() == 0 {
            return Vec::new();
        }
        match registry.find(id) {
            Some(i) => registry.sessions[i].state.build_flat_used_exports(),
            None => Vec::new(),
        }
    }

    /// Per share key and runtime, the exports used in session `id`, sorted; empty where
    /// no share key takes part or the session has no state.
    pub fn session_runtime_used_exports(&self, registry: &SessionRegistry, id: u64) -> (r: Vec<RuntimeUsedExports>)
        requires
            registry.wf(),
        ensures
            (self.shared_map.len() == 0 || !registry.has(id)) ==> r.len() == 0,
            self.shared_map.len() > 0 && registry.has(id) ==> exists|i: int|
                0 <= i < registry.sessions.len() && (#[trigger] registry.sessions@[i]).id == id
                    && (forall|a: int, b: int| 0 <= a < r.len() && 0 <= b < r@[a].runtimes.len() ==> crate::names::is_sorted_listing(
                        (#[trigger] r@[a].runtimes@[b]).exports@,
                        registry.sessions@[i].state.used(r@[a].share_key@, r@[a].runtimes@[b].runtime@),
                    ) && r@[a].runtimes@[b].exports.len() > 0)
                    && (forall|k: Seq<char>, rt: Seq<char>|
                        name_set(registry.sessions@[i].state.share_keys@).contains(k) && #[trigger] registry.sessions@[i].state.used(k, rt)
                            != Set::<Seq<char>>::empty() ==> exists|a: int, b: int|
                            0 <= a < r.len() && 0 <= b < r@[a].runtimes.len() && (#[trigger] r@[a]).share_key@ == k
                                && (#[trigger] r@[a].runtimes@[b]).runtime@ == rt)
                    && (forall|a: int, b: int|
                        0 <= a < r.len() && 0 <= b < r.len() && a != b ==> (#[trigger] r@[a]).share_key@ != (#[trigger] r@[b]).share_key@)
                    && (forall|a: int, x: int, y: int|
                        0 <= a < r.len() && 0 <= x < r@[a].runtimes.len() && 0 <= y < r@[a].runtimes.len() && x != y
                            ==> (#[trigger] r@[a].runtimes@[x]).runtime@ != (#[trigger] r@[a].runtimes@[y]).runtime@),
    {
        if self.shared_map.len() == 0 {
            return Vec::new();
        }
        match registry.find(id) {
            Some(i) => registry.sessions[i].state.build_runtime_used_exports_map(),
            None => Vec::new(),
        }
    }

    /// Drops the state of session `id` when the host invalidates it.
    pub fn clear_cache(&self, registry: &mut SessionRegistry, id: u64)
        requires
            old(registry).wf(),
        ensures
            final(registry).wf(),
            forall|s: u64| #[trigger] final(registry).has(s) == (old(registry).has(s) && s != id),
            forall|i: int| 0 <= i < old(registry).sessions.len() && (#[trigger] old(registry).sessions@[i]).id != id
                ==> exists|j: int| 0 <= j < final(registry).sessions.len() && final(registry).sessions@[j] == old(registry).sessions@[i],
    {
        registry.remove(id);
    }

    /// The manifest of session `id` patched with the exports used under each share key:
    /// `None` where there is nothing to record (no share key takes part, the session has
    /// no state, or no name was recorded).
    pub fn process_manifest(&self, registry: &SessionRegistry, id: u64, manifest: JsonValue) -> (r: Option<JsonValue>)
        requires
            registry.wf(),
        ensures
            (self.shared_map.len() == 0 || !registry.has(id)) ==> r is None,
            self.shared_map.len() > 0 && registry.has(id) ==> exists|i: int|
                0 <= i < registry.sessions.len() && (#[trigger] registry.sessions@[i]).id == id && (r is None <==> forall|k: Seq<char>|
                    name_set(registry.sessions@[i].state.share_keys@).contains(k) ==> #[trigger] registry.sessions@[i].state.flat_used(k)
                        == Set::<Seq<char>>::empty()) && (r is Some ==> exists|f: Seq<FlatUsedExports>|
                    #[trigger] flat_listing(registry.sessions@[i].state, f) && manifest_patched(manifest, r->Some_0, f)),
    {
        if self.shared_map.len() == 0 {
            return None;
        }
        match registry.find(id) {
            Some(i) => {
                let st = &registry.sessions[i].state;
                let flat = st.build_flat_used_exports();
                proof {
                    assert(flat_listing(*st, flat@));
                    if forall|k: Seq<char>| name_set(st.share_keys@).contains(k) ==> #[trigger] st.flat_used(k) == Set::<Seq<char>>::empty() {
                        if flat.len() > 0 {
                            assert(name_set(st.share_keys@).contains(flat@[0].share_key@));
                            assert(crate::names::name_set(flat@[0].exports@).contains(flat@[0].exports@[0]@));
                        }
                    }
                }
                if flat.len() == 0 {
                    return None;
                }
                let patched = patch_manifest(manifest, &flat);
                Some(patched)
            },
            None => None,
        }
    }
}

} // verus!
