//! The optimiser's configuration and its collection of used exports from the graph.
use vstd::prelude::*;
use crate::graph::{
    connection_wf, has_refs, is_live, live_names, live_reference, Connection, DependencyType,
    Module, ModuleGraph,
};
use crate::names::{
    copy_name, contains_name, distinct_names, extend_names, lemma_name_set_empty,
    lemma_name_set_prefix_step, name_set, path_names,
};
use crate::state::{OptimizeCompilationState, ProvidePair};
use crate::marker::{
    lemma_step_marked_congruent, marked_in_order, marks_session, step_marked, table_after_marking,
    fallback_side_effect_free, in_some_pair, is_marked_by, lattices_wf, mark_exports, pair_marked,
    pairs_disjoint, same_shape,
};

verus! {

/// Configuration of one shared dependency.
pub struct OptimizeSharedConfig {
    pub share_key: String,
    /// Whether the dependency takes part in export pruning at all.
    pub treeshake: bool,
    /// Exports always treated as used.
    pub used_exports: Vec<String>,
}

pub struct OptimizeDependencyReferencedExportsPluginOptions {
    pub shared: Vec<OptimizeSharedConfig>,
    /// Runtimes left out of the analysis, by name.
    pub ignored_runtime: Vec<String>,
}

/// A share key with a list of export names.
pub struct SharedEntryData {
    pub share_key: String,
    pub used_exports: Vec<String>,
}

/// The optimiser: which share keys take part, with their forced exports, which
/// runtimes are ignored, and the override map.
pub struct OptimizeDependencyReferencedExportsPlugin {
    pub shared_map: Vec<SharedEntryData>,
    pub ignored_runtime: Vec<String>,
    pub custom_referenced_exports: Vec<SharedEntryData>,
}

/// `map` holds an entry for `k`.
pub open spec fn has_key(map: Seq<SharedEntryData>, k: Seq<char>) -> bool {
    exists|i: int| 0 <= i < map.len() && (#[trigger] map[i]).share_key@ == k
}

/// The names `map` holds for `k` (empty where it holds no entry).
pub open spec fn lookup(map: Seq<SharedEntryData>, k: Seq<char>) -> Set<Seq<char>> {
    Set::new(
        |x: Seq<char>|
            exists|i: int|
                0 <= i < map.len() && (#[trigger] map[i]).share_key@ == k && name_set(
                    map[i].used_exports@,
                ).contains(x),
    )
}

/// Every key of `map` is held once.
pub open spec fn keys_distinct(map: Seq<SharedEntryData>) -> bool {
    forall|i: int, j: int|
        0 <= i < map.len() && 0 <= j < map.len() && i != j ==> (#[trigger] map[i]).share_key@ != (
        #[trigger] map[j]).share_key@
}

/// Some configuration with pruning enabled is for `k`.
pub open spec fn has_tree_key(pairs: Seq<OptimizeSharedConfig>, k: Seq<char>) -> bool {
    exists|i: int| 0 <= i < pairs.len() && (#[trigger] pairs[i]).treeshake && pairs[i].share_key@ == k
}

/// The last configuration with pruning enabled for `k` is at `i`.
pub open spec fn last_for(pairs: Seq<OptimizeSharedConfig>, k: Seq<char>, i: int) -> bool {
    &&& 0 <= i < pairs.len()
    &&& pairs[i].treeshake
    &&& pairs[i].share_key@ == k
    &&& forall|j: int| i < j < pairs.len() ==> !((#[trigger] pairs[j]).treeshake && pairs[j].share_key@ == k)
}

/// The map that keeps, for each key with pruning enabled in `pairs`, the exports of
/// its last such configuration.
pub open spec fn is_last_wins(map: Seq<SharedEntryData>, pairs: Seq<OptimizeSharedConfig>) -> bool {
    &&& keys_distinct(map)
    &&& forall|k: Seq<char>| #[trigger] has_key(map, k) == has_tree_key(pairs, k)
    &&& forall|k: Seq<char>, i: int|
        #[trigger] last_for(pairs, k, i) ==> lookup(map, k) == name_set(pairs[i].used_exports@)
    &&& forall|k: Seq<char>, i: int|
        #[trigger] last_for(pairs, k, i) ==> exists|j: int|
            0 <= j < map.len() && (#[trigger] map[j]).share_key@ == k && same_list(map[j].used_exports@, pairs[i].used_exports@)
}

/// The two lists hold the same names in the same order.
pub open spec fn same_list(a: Seq<String>, b: Seq<String>) -> bool {
    &&& a.len() == b.len()
    &&& forall|t: int| 0 <= t < a.len() ==> (#[trigger] a[t])@ == b[t]@
}

/// Where `i` is the entry for `k` in a map with distinct keys, its names are the
/// map's names for `k`.
pub proof fn lemma_lookup_at(map: Seq<SharedEntryData>, i: int)
    requires
        keys_distinct(map),
        0 <= i < map.len(),
    ensures
        lookup(map, map[i].share_key@) == name_set(map[i].used_exports@),
{
    let k = map[i].share_key@;
    assert forall|x: Seq<char>| #[trigger] lookup(map, k).contains(x) implies name_set(
        map[i].used_exports@,
    ).contains(x) by {
        let j = choose|j: int|
            0 <= j < map.len() && (#[trigger] map[j]).share_key@ == k && name_set(
                map[j].used_exports@,
            ).contains(x);
        if j != i {
            assert(map[j].share_key@ != map[i].share_key@);
        }
    }
    assert(lookup(map, k) =~= name_set(map[i].used_exports@));
}

/// The position of the entry for `key`.
pub fn find_entry(map: &Vec<SharedEntryData>, key: &String) -> (r: Option<usize>)
    requires
        keys_distinct(map@),
    ensures
        r is None ==> !has_key(map@, key@) && lookup(map@, key@) == Set::<Seq<char>>::empty(),
        r matches Some(i) ==> i < map.len() && map@[i as int].share_key@ == key@ && has_key(
            map@,
            key@,
        ) && lookup(map@, key@) == name_set(map@[i as int].used_exports@),
{
    let mut i: usize = 0;
    while i < map.len()
        invariant
            0 <= i <= map.len(),
            keys_distinct(map@),
            forall|j: int| 0 <= j < i ==> (#[trigger] map@[j]).share_key@ != key@,
        decreases map.len() - i,
    {
        if map[i].share_key == *key {
            proof {
                lemma_lookup_at(map@, i as int);
            }
            return Some(i);
        }
        i = i + 1;
    }
    assert(lookup(map@, key@) =~= Set::<Seq<char>>::empty());
    None
}

/// Copies a list of names.
pub fn copy_names(v: &Vec<String>) -> (r: Vec<String>)
    ensures
        r@.len() == v@.len(),
        forall|i: int| 0 <= i < v.len() ==> (#[trigger] r@[i])@ == v@[i]@,
        name_set(r@) == name_set(v@),
{
    let mut r: Vec<String> = Vec::new();
    let mut i: usize = 0;
    while i < v.len()
        invariant
            0 <= i <= v.len(),
            r@.len() == i,
            forall|j: int| 0 <= j < i ==> (#[trigger] r@[j])@ == v@[j]@,
        decreases v.len() - i,
    {
        r.push(copy_name(&v[i]));
        i = i + 1;
    }
    assert(name_set(r@) =~= name_set(v@)) by {
        assert forall|x: Seq<char>| #[trigger] name_set(v@).contains(x) implies name_set(r@).contains(x) by {
            let j = choose|j: int| 0 <= j < v.len() && (#[trigger] v@[j])@ == x;
            assert(r@[j]@ == x);
        }
    }
    r
}

/// Builds the map of the configurations with pruning enabled, in which a later entry
/// for a key replaces an earlier one.
pub fn last_wins_map(pairs: &Vec<OptimizeSharedConfig>) -> (r: Vec<SharedEntryData>)
    ensures
        is_last_wins(r@, pairs@),
{
    let mut r: Vec<SharedEntryData> = Vec::new();
    let mut n: usize = 0;
    while n < pairs.len()
        invariant
            0 <= n <= pairs.len(),
            is_last_wins(r@, pairs@.subrange(0, n as int)),
        decreases pairs.len() - n,
    {
        let ghost pre = pairs@.subrange(0, n as int);
        let ghost post = pairs@.subrange(0, n + 1);
        let ghost old_r = r@;
        let entry = &pairs[n];
        if !entry.treeshake {
            proof {
                assert forall|j: int| 0 <= j < n implies #[trigger] post[j] == pre[j] by {}
                assert forall|k: Seq<char>| #[trigger] has_key(r@, k) == has_tree_key(post, k) by {
                    if has_tree_key(post, k) {
                        let j = choose|j: int| 0 <= j < post.len() && (#[trigger] post[j]).treeshake && post[j].share_key@ == k;
                        assert(has_tree_key(pre, k));
                    }
                    if has_tree_key(pre, k) {
                        let j = choose|j: int| 0 <= j < pre.len() && (#[trigger] pre[j]).treeshake && pre[j].share_key@ == k;
                        assert(post[j] == pre[j]);
                    }
                }
                assert forall|k: Seq<char>, i: int|
                    #[trigger] last_for(post, k, i) implies lookup(r@, k) == name_set(post[i].used_exports@) by {
                    assert(i < n);
                    assert(last_for(pre, k, i)) by {
                        assert forall|j: int| i < j < pre.len() implies !((#[trigger] pre[j]).treeshake && pre[j].share_key@ == k) by {
                            assert(post[j] == pre[j]);
                        }
                    }
                }
                assert forall|k: Seq<char>, i: int| #[trigger] last_for(post, k, i) implies exists|j: int|
                    0 <= j < r@.len() && (#[trigger] r@[j]).share_key@ == k && same_list(r@[j].used_exports@, post[i].used_exports@) by {
                    assert(i < n);
                    assert(last_for(pre, k, i)) by {
                        assert forall|j: int| i < j < pre.len() implies !((#[trigger] pre[j]).treeshake && pre[j].share_key@ == k) by {
                            assert(post[j] == pre[j]);
                        }
                    }
                    assert(post[i] == pre[i]);
                }
            }
            n = n + 1;
            continue;
        }
        let names = copy_names(&entry.used_exports);
        let found = find_entry(&r, &entry.share_key);
        match found {
            Some(i) => {
                r.set(i, SharedEntryData { share_key: copy_name(&entry.share_key), used_exports: names });
            },
            None => {
                r.push(SharedEntryData { share_key: copy_name(&entry.share_key), used_exports: names });
            },
        }
        proof {
            let k0 = entry.share_key@;
            let at: int = match found { Some(i) => i as int, None => old_r.len() as int };
            assert(post[n as int] == *entry);
            assert forall|j: int| 0 <= j < n implies #[trigger] post[j] == pre[j] by {}
            assert forall|j: int| 0 <= j < r@.len() && j != at implies #[trigger] r@[j] == old_r[j] by {}
            assert(keys_distinct(r@)) by {
                assert forall|a: int, b: int|
                    0 <= a < r@.len() && 0 <= b < r@.len() && a != b implies (#[trigger] r@[a]).share_key@ != (
                    #[trigger] r@[b]).share_key@ by {
                    if a != at && b != at {
                        assert(old_r[a].share_key@ != old_r[b].share_key@);
                    } else if a == at {
                        assert(r@[b] == old_r[b]);
                        if found is None {
                            assert(old_r[b].share_key@ != k0);
                        }
                    } else {
                        assert(r@[a] == old_r[a]);
                        if found is None {
                            assert(old_r[a].share_key@ != k0);
                        }
                    }
                }
            }
            assert forall|k: Seq<char>| #[trigger] has_key(r@, k) == has_tree_key(post, k) by {
                if has_tree_key(post, k) {
                    let j = choose|j: int| 0 <= j < post.len() && (#[trigger] post[j]).treeshake && post[j].share_key@ == k;
                    if j < n {
                        assert(has_tree_key(pre, k));
                        assert(has_key(old_r, k));
                        let m = choose|m: int| 0 <= m < old_r.len() && (#[trigger] old_r[m]).share_key@ == k;
                        if m != at {
                            assert(r@[m] == old_r[m]);
                        } else {
                            assert(r@[at].share_key@ == k);
                        }
                    } else {
                        assert(r@[at].share_key@ == k);
                    }
                }
                if has_key(r@, k) {
                    let m = choose|m: int| 0 <= m < r@.len() && (#[trigger] r@[m]).share_key@ == k;
                    if m != at {
                        assert(r@[m] == old_r[m]);
                        assert(has_key(old_r, k));
                        assert(has_tree_key(pre, k));
                        let j = choose|j: int| 0 <= j < pre.len() && (#[trigger] pre[j]).treeshake && pre[j].share_key@ == k;
                        assert(post[j] == pre[j]);
                    } else {
                        assert(post[n as int].share_key@ == k);
                    }
                }
            }
            assert forall|k: Seq<char>, i: int| #[trigger] last_for(post, k, i) implies exists|j: int|
                0 <= j < r@.len() && (#[trigger] r@[j]).share_key@ == k && same_list(r@[j].used_exports@, post[i].used_exports@) by {
                if k == k0 {
                    assert(i == n);
                    assert(r@[at].share_key@ == k);
                    assert(same_list(r@[at].used_exports@, post[i].used_exports@));
                } else {
                    assert(i < n);
                    assert(last_for(pre, k, i)) by {
                        assert forall|j: int| i < j < pre.len() implies !((#[trigger] pre[j]).treeshake && pre[j].share_key@ == k) by {
                            assert(post[j] == pre[j]);
                        }
                    }
                    assert(post[i] == pre[i]);
                    let j = choose|j: int|
                        0 <= j < old_r.len() && (#[trigger] old_r[j]).share_key@ == k && same_list(old_r[j].used_exports@, pre[i].used_exports@);
                    assert(j != at);
                    assert(r@[j] == old_r[j]);
                }
            }
            assert forall|k: Seq<char>, i: int|
                #[trigger] last_for(post, k, i) implies lookup(r@, k) == name_set(post[i].used_exports@) by {
                if k == k0 {
                    assert(i == n);
                    lemma_lookup_at(r@, at);
                } else {
                    assert(i < n);
                    assert(last_for(pre, k, i)) by {
                        assert forall|j: int| i < j < pre.len() implies !((#[trigger] pre[j]).treeshake && pre[j].share_key@ == k) by {
                            assert(post[j] == pre[j]);
                        }
                    }
                    assert(lookup(old_r, k) == name_set(pre[i].used_exports@));
                    assert(lookup(r@, k) =~= lookup(old_r, k)) by {
                        assert forall|x: Seq<char>| #[trigger] lookup(r@, k).contains(x) == lookup(old_r, k).contains(x) by {
                            if lookup(r@, k).contains(x) {
                                let m = choose|m: int|
                                    0 <= m < r@.len() && (#[trigger] r@[m]).share_key@ == k && name_set(
                                        r@[m].used_exports@,
                                    ).contains(x);
                                assert(r@[m] == old_r[m]);
                            }
                            if lookup(old_r, k).contains(x) {
                                let m = choose|m: int|
                                    0 <= m < old_r.len() && (#[trigger] old_r[m]).share_key@ == k && name_set(
                                        old_r[m].used_exports@,
                                    ).contains(x);
                                assert(r@[m] == old_r[m]);
                            }
                        }
                    }
                }
            }
        }
        n = n + 1;
    }
    assert(pairs@.subrange(0, pairs.len() as int) =~= pairs@);
    r
}


impl OptimizeDependencyReferencedExportsPlugin {
    /// Shared-map and override keys are each held once.
    pub open spec fn wf(&self) -> bool {
        &&& keys_distinct(self.shared_map@)
        &&& keys_distinct(self.custom_referenced_exports@)
    }

    /// `k` takes part in export pruning.
    pub open spec fn is_shared(&self, k: Seq<char>) -> bool {
        has_key(self.shared_map@, k)
    }

    /// The exports configured as always used for `k`.
    pub open spec fn forced(&self, k: Seq<char>) -> Set<Seq<char>> {
        lookup(self.shared_map@, k)
    }

    /// The exports the override map gives for `k`.
    pub open spec fn custom(&self, k: Seq<char>) -> Set<Seq<char>> {
        lookup(self.custom_referenced_exports@, k)
    }

    /// Configuration or override force some export of `k` to be used.
    pub open spec fn has_signal(&self, k: Seq<char>) -> bool {
        self.forced(k) != Set::<Seq<char>>::empty() || self.custom(k) != Set::<Seq<char>>::empty()
    }

    /// `rt` is left out of the analysis.
    pub open spec fn ignored(&self, rt: Seq<char>) -> bool {
        name_set(self.ignored_runtime@).contains(rt)
    }

    /// Creates the optimiser from its options, with no override map.
    pub fn new(options: OptimizeDependencyReferencedExportsPluginOptions) -> (r: Self)
        ensures
            r.wf(),
            is_last_wins(r.shared_map@, options.shared@),
            r.ignored_runtime@ == options.ignored_runtime@,
            r.custom_referenced_exports.len() == 0,
    {
        Self::with_custom_referenced_exports(options, Vec::new())
    }

    /// Creates the optimiser from its options and an override map.
    pub fn with_custom_referenced_exports(
        options: OptimizeDependencyReferencedExportsPluginOptions,
        custom: Vec<SharedEntryData>,
    ) -> (r: Self)
        requires
            keys_distinct(custom@),
        ensures
            r.wf(),
            is_last_wins(r.shared_map@, options.shared@),
            r.ignored_runtime@ == options.ignored_runtime@,
            r.custom_referenced_exports@ == custom@,
    {
        let shared_map = last_wins_map(&options.shared);
        OptimizeDependencyReferencedExportsPlugin {
            shared_map,
            ignored_runtime: options.ignored_runtime,
            custom_referenced_exports: custom,
        }
    }

    /// The share keys that take part, each once.
    pub fn shared_keys(&self) -> (r: Vec<String>)
        requires
            self.wf(),
        ensures
            distinct_names(r@),
            forall|k: Seq<char>| #[trigger] name_set(r@).contains(k) == self.is_shared(k),
    {
        let mut r: Vec<String> = Vec::new();
        let mut i: usize = 0;
        while i < self.shared_map.len()
            invariant
                0 <= i <= self.shared_map.len(),
                self.wf(),
                r@.len() == i,
                forall|j: int| 0 <= j < i ==> (#[trigger] r@[j])@ == self.shared_map@[j].share_key@,
            decreases self.shared_map.len() - i,
        {
            r.push(copy_name(&self.shared_map[i].share_key));
            i = i + 1;
        }
        proof {
            assert forall|a: int, b: int| 0 <= a < r@.len() && 0 <= b < r@.len() && a != b implies r@[a]@ != r@[b]@ by {
                assert(self.shared_map@[a].share_key@ != self.shared_map@[b].share_key@);
            }
            assert forall|k: Seq<char>| #[trigger] name_set(r@).contains(k) == self.is_shared(k) by {
                if self.is_shared(k) {
                    let j = choose|j: int| 0 <= j < self.shared_map.len() && (#[trigger] self.shared_map@[j]).share_key@ == k;
                    assert(r@[j]@ == k);
                }
            }
        }
        r
    }

    /// Adds every name on every export path of `referenced` to `target`.
    pub fn extend_referenced_exports(target: &mut Vec<String>, referenced: &Vec<Vec<String>>)
        ensures
            name_set(final(target)@) == name_set(old(target)@).union(path_names(referenced@)),
    {
        let mut i: usize = 0;
        while i < referenced.len()
            invariant
                0 <= i <= referenced.len(),
                name_set(target@) == name_set(old(target)@).union(path_names(referenced@.subrange(0, i as int))),
            decreases referenced.len() - i,
        {
            extend_names(target, &referenced[i]);
            proof {
                let pre = referenced@.subrange(0, i as int);
                let post = referenced@.subrange(0, i + 1);
                assert(post[i as int] == referenced@[i as int]);
                assert forall|j: int| 0 <= j < i implies #[trigger] post[j] == pre[j] by {}
                assert(path_names(post) =~= path_names(pre).union(name_set(referenced@[i as int]@))) by {
                    assert forall|x: Seq<char>| #[trigger] path_names(post).contains(x) implies path_names(pre).union(name_set(referenced@[i as int]@)).contains(x) by {
                        let j = choose|j: int| 0 <= j < post.len() && name_set((#[trigger] post[j])@).contains(x);
                        if j < i {
                            assert(post[j] == pre[j]);
                        }
                    }
                    assert forall|x: Seq<char>| #[trigger] path_names(pre).contains(x) implies path_names(post).contains(x) by {
                        let j = choose|j: int| 0 <= j < pre.len() && name_set((#[trigger] pre[j])@).contains(x);
                        assert(post[j] == pre[j]);
                    }
                }
            }
            i = i + 1;
        }
        assert(referenced@.subrange(0, referenced.len() as int) =~= referenced@);
    }
}


impl OptimizeDependencyReferencedExportsPlugin {
    /// The connection `c`, of a module scheduled in `runtimes`, is a live static import
    /// of the shared dependency `k` in the runtime `r`, which is not ignored.
    pub open spec fn hit(&self, c: Connection, runtimes: Seq<String>, k: Seq<char>, r: Seq<char>) -> bool {
        &&& c.dependency_type == DependencyType::EsmImportSpecifier
        &&& c.request@ == k
        &&& self.is_shared(k)
        &&& name_set(runtimes).contains(r)
        &&& !self.ignored(r)
        &&& is_live(c, r)
    }

    /// As `hit`, and the import carries a signal: it references some export path there,
    /// or configuration or override force exports of `k`.
    pub open spec fn signal_hit(&self, c: Connection, runtimes: Seq<String>, k: Seq<char>, r: Seq<char>) -> bool {
        self.hit(c, runtimes, k, r) && (has_refs(c, r) || self.has_signal(k))
    }

    /// The names that the connection contributes to the bucket of `k` in `r`.
    pub open spec fn hit_names(&self, c: Connection, runtimes: Seq<String>, k: Seq<char>, r: Seq<char>) -> Set<Seq<char>> {
        if self.signal_hit(c, runtimes, k, r) {
            live_names(c, r)
        } else {
            Set::<Seq<char>>::empty()
        }
    }

    /// Some of the first `n` connections of `m` gives `k` a bucket in `r`.
    pub open spec fn module_signal_hit(&self, m: Module, n: int, k: Seq<char>, r: Seq<char>) -> bool {
        exists|c: int| 0 <= c < n && #[trigger] self.signal_hit(m.connections@[c], m.runtimes@, k, r)
    }

    /// The names that the first `n` connections of `m` contribute to `k` in `r`.
    pub open spec fn module_names(&self, m: Module, n: int, k: Seq<char>, r: Seq<char>) -> Set<Seq<char>> {
        Set::new(
            |x: Seq<char>|
                exists|c: int|
                    0 <= c < n && (#[trigger] self.hit_names(m.connections@[c], m.runtimes@, k, r)).contains(x),
        )
    }

    /// Some of the first `n` connections of `m` makes `r` observed: it records a bucket
    /// there.
    pub open spec fn module_observed(&self, m: Module, n: int, r: Seq<char>) -> bool {
        exists|c: int|
            0 <= c < n && #[trigger] self.signal_hit(m.connections@[c], m.runtimes@, m.connections@[c].request@, r)
    }

    /// Some connection of the first `n` modules gives `k` a bucket in `r`.
    pub open spec fn graph_signal_hit(&self, g: ModuleGraph, n: int, k: Seq<char>, r: Seq<char>) -> bool {
        exists|m: int|
            0 <= m < n && #[trigger] self.module_signal_hit(
                g.modules@[m],
                g.modules@[m].connections.len() as int,
                k,
                r,
            )
    }

    /// The names that the connections of the first `n` modules contribute to `k` in `r`.
    pub open spec fn graph_names(&self, g: ModuleGraph, n: int, k: Seq<char>, r: Seq<char>) -> Set<Seq<char>> {
        Set::new(
            |x: Seq<char>|
                exists|m: int|
                    0 <= m < n && (#[trigger] self.module_names(
                        g.modules@[m],
                        g.modules@[m].connections.len() as int,
                        k,
                        r,
                    )).contains(x),
        )
    }

    /// Some connection of the first `n` modules makes `r` observed.
    pub open spec fn graph_observed(&self, g: ModuleGraph, n: int, r: Seq<char>) -> bool {
        exists|m: int|
            0 <= m < n && #[trigger] self.module_observed(
                g.modules@[m],
                g.modules@[m].connections.len() as int,
                r,
            )
    }

    /// The state changes only by what `collect` adds.
    pub open spec fn grows_by(
        &self,
        pre: OptimizeCompilationState,
        post: OptimizeCompilationState,
        bucket: spec_fn(Seq<char>, Seq<char>) -> bool,
        names: spec_fn(Seq<char>, Seq<char>) -> Set<Seq<char>>,
        observed: spec_fn(Seq<char>) -> bool,
    ) -> bool {
        &&& post.wf()
        &&& post.share_keys == pre.share_keys
        &&& post.share_key_to_modules == pre.share_key_to_modules
        &&& forall|k: Seq<char>, r: Seq<char>| #[trigger] post.has_bucket(k, r) == (pre.has_bucket(k, r) || bucket(k, r))
        &&& forall|k: Seq<char>, r: Seq<char>| #[trigger] post.used(k, r) == pre.used(k, r).union(names(k, r))
        &&& forall|r: Seq<char>| #[trigger] post.registered(r) == (pre.registered(r) || observed(r))
    }

    /// Every shared key has its table entry.
    pub open spec fn keys_seeded(&self, state: OptimizeCompilationState) -> bool {
        forall|k: Seq<char>| self.is_shared(k) ==> #[trigger] name_set(state.share_keys@).contains(k)
    }

    /// Records what one connection of a module scheduled in `runtimes` uses.
    pub fn collect_connection(&self, conn: &Connection, runtimes: &Vec<String>, state: &mut OptimizeCompilationState)
        requires
            self.wf(),
            old(state).wf(),
            self.keys_seeded(*old(state)),
            connection_wf(*conn),
        ensures
            self.grows_by(
                *old(state),
                *final(state),
                |k: Seq<char>, r: Seq<char>| self.signal_hit(*conn, runtimes@, k, r),
                |k: Seq<char>, r: Seq<char>| self.hit_names(*conn, runtimes@, k, r),
                |r: Seq<char>| self.signal_hit(*conn, runtimes@, conn.request@, r),
            ),
    {
        if conn.dependency_type != DependencyType::EsmImportSpecifier {
            assert forall|k: Seq<char>, r: Seq<char>| #[trigger] state.used(k, r) == state.used(k, r).union(
                self.hit_names(*conn, runtimes@, k, r),
            ) by {
                assert(state.used(k, r) =~= state.used(k, r).union(Set::<Seq<char>>::empty()));
            }
            return;
        }
        let found = find_entry(&self.shared_map, &conn.request);
        let idx = match found {
            Some(i) => i,
            None => {
                assert forall|k: Seq<char>, r: Seq<char>| #[trigger] state.used(k, r) == state.used(k, r).union(
                    self.hit_names(*conn, runtimes@, k, r),
                ) by {
                    assert(state.used(k, r) =~= state.used(k, r).union(Set::<Seq<char>>::empty()));
                }
                return;
            },
        };
        let forced_nonempty = self.shared_map[idx].used_exports.len() > 0;
        proof {
            lemma_name_set_empty(self.shared_map@[idx as int].used_exports@);
        }
        let custom_nonempty = match find_entry(&self.custom_referenced_exports, &conn.request) {
            Some(j) => {
                proof {
                    lemma_name_set_empty(self.custom_referenced_exports@[j as int].used_exports@);
                }
                self.custom_referenced_exports[j].used_exports.len() > 0
            },
            None => false,
        };
        assert((forced_nonempty || custom_nonempty) == self.has_signal(conn.request@));
        let ghost pre = *state;
        let mut t: usize = 0;
        proof {
            assert(name_set(runtimes@.subrange(0, 0)) =~= Set::<Seq<char>>::empty());
            assert forall|k: Seq<char>, r: Seq<char>| #[trigger] state.used(k, r) == pre.used(k, r).union(
                self.hit_names(*conn, runtimes@.subrange(0, 0), k, r),
            ) by {
                assert(state.used(k, r) =~= state.used(k, r).union(Set::<Seq<char>>::empty()));
            }
        }
        while t < runtimes.len()
            invariant
                0 <= t <= runtimes.len(),
                self.wf(),
                connection_wf(*conn),
                self.is_shared(conn.request@),
                conn.dependency_type == DependencyType::EsmImportSpecifier,
                (forced_nonempty || custom_nonempty) == self.has_signal(conn.request@),
                pre == *old(state),
                self.keys_seeded(pre),
                self.grows_by(
                    pre,
                    *state,
                    |k: Seq<char>, r: Seq<char>| self.signal_hit(*conn, runtimes@.subrange(0, t as int), k, r),
                    |k: Seq<char>, r: Seq<char>| self.hit_names(*conn, runtimes@.subrange(0, t as int), k, r),
                    |r: Seq<char>| self.signal_hit(*conn, runtimes@.subrange(0, t as int), conn.request@, r),
                ),
            decreases runtimes.len() - t,
        {
            let rt = &runtimes[t];
            let ghost before = *state;
            let ghost sub0 = runtimes@.subrange(0, t as int);
            let ghost sub1 = runtimes@.subrange(0, t + 1);
            proof {
                lemma_name_set_prefix_step(runtimes@, t as int);
            }
            let mut added = false;
            let mut registered = false;
            if !contains_name(&self.ignored_runtime, rt) {
                match live_reference(conn, rt) {
                    Some(i) => {
                        let refs = &conn.per_runtime[i].referenced;
                        if refs.len() > 0 || forced_nonempty || custom_nonempty {
                            state.register_runtime(rt);
                            registered = true;
                            let mut names: Vec<String> = Vec::new();
                            Self::extend_referenced_exports(&mut names, refs);
                            assert(name_set(names@) =~= live_names(*conn, rt@)) by {
                                assert(name_set(Seq::<String>::empty()) =~= Set::<Seq<char>>::empty());
                            }
                            let ghost mid = *state;
                            state.add_exports(&conn.request, rt, &names);
                            assert(state.runtime_specs == mid.runtime_specs);
                            assert(forall|r: Seq<char>| #[trigger] state.registered(r) == mid.registered(r));
                            added = true;
                        }
                    },
                    None => {},
                }
            }
            proof {
                let k0 = conn.request@;
                let r0 = rt@;
                assert(forall|k: Seq<char>, r: Seq<char>| #[trigger] state.has_bucket(k, r) == (before.has_bucket(k, r) || (added && k == k0 && r == r0)));
                assert(forall|k: Seq<char>, r: Seq<char>| #[trigger] state.used(k, r) == if added && k == k0 && r == r0 {
                    before.used(k, r).union(live_names(*conn, r0))
                } else {
                    before.used(k, r)
                });
                assert(forall|r: Seq<char>| #[trigger] state.registered(r) == (before.registered(r) || (registered && r == r0)));
                assert(added ==> self.signal_hit(*conn, sub1, k0, r0));
                assert(!added ==> !self.signal_hit(*conn, sub1, k0, r0) || self.signal_hit(*conn, sub0, k0, r0)) by {
                    if !added && self.signal_hit(*conn, sub1, k0, r0) {
                        assert(registered);
                    }
                }
                assert forall|k: Seq<char>, r: Seq<char>| #[trigger] state.has_bucket(k, r) == (pre.has_bucket(k, r)
                    || self.signal_hit(*conn, sub1, k, r)) by {
                    if r != r0 || k != k0 {
                        assert(self.signal_hit(*conn, sub1, k, r) == self.signal_hit(*conn, sub0, k, r));
                    }
                    assert(before.has_bucket(k, r) == (pre.has_bucket(k, r) || self.signal_hit(*conn, sub0, k, r)));
                }
                assert forall|k: Seq<char>, r: Seq<char>| #[trigger] state.used(k, r) == pre.used(k, r).union(
                    self.hit_names(*conn, sub1, k, r),
                ) by {
                    if r != r0 || k != k0 {
                        assert(self.signal_hit(*conn, sub1, k, r) == self.signal_hit(*conn, sub0, k, r));
                        assert(self.hit_names(*conn, sub1, k, r) == self.hit_names(*conn, sub0, k, r));
                    } else if added {
                        assert(before.used(k, r) == pre.used(k, r).union(self.hit_names(*conn, sub0, k, r)));
                        assert(state.used(k, r) =~= pre.used(k, r).union(self.hit_names(*conn, sub1, k, r)));
                    } else if self.signal_hit(*conn, sub0, k, r) {
                        assert(self.hit_names(*conn, sub1, k, r) == self.hit_names(*conn, sub0, k, r));
                    } else {
                        assert(state.used(k, r) =~= pre.used(k, r).union(self.hit_names(*conn, sub1, k, r)));
                    }
                }
                assert forall|r: Seq<char>| #[trigger] state.registered(r) == (pre.registered(r)
                    || self.signal_hit(*conn, sub1, k0, r)) by {
                    if r != r0 {
                        assert(self.signal_hit(*conn, sub1, k0, r) == self.signal_hit(*conn, sub0, k0, r));
                    } else if !registered {
                        assert(self.signal_hit(*conn, sub1, k0, r) == self.signal_hit(*conn, sub0, k0, r));
                    }
                }
            }
            t = t + 1;
        }
        assert(runtimes@.subrange(0, runtimes.len() as int) =~= runtimes@);
    }

    /// Records what the connections of one module use.
    pub fn collect_module(&self, module: &Module, state: &mut OptimizeCompilationState)
        requires
            self.wf(),
            old(state).wf(),
            self.keys_seeded(*old(state)),
            forall|c: int| 0 <= c < module.connections.len() ==> connection_wf(#[trigger] module.connections@[c]),
        ensures
            self.grows_by(
                *old(state),
                *final(state),
                |k: Seq<char>, r: Seq<char>| self.module_signal_hit(*module, module.connections.len() as int, k, r),
                |k: Seq<char>, r: Seq<char>| self.module_names(*module, module.connections.len() as int, k, r),
                |r: Seq<char>| self.module_observed(*module, module.connections.len() as int, r),
            ),
    {
        let ghost pre = *state;
        if module.runtimes.len() == 0 {
            proof {
                assert(name_set(module.runtimes@) =~= Set::<Seq<char>>::empty());
                assert forall|k: Seq<char>, r: Seq<char>| #[trigger] state.used(k, r) == pre.used(k, r).union(
                    self.module_names(*module, module.connections.len() as int, k, r),
                ) by {
                    assert(self.module_names(*module, module.connections.len() as int, k, r) =~= Set::<Seq<char>>::empty());
                    assert(state.used(k, r) =~= state.used(k, r).union(Set::<Seq<char>>::empty()));
                }
            }
            return;
        }
        let mut c: usize = 0;
        proof {
            assert forall|k: Seq<char>, r: Seq<char>| #[trigger] state.used(k, r) == pre.used(k, r).union(
                self.module_names(*module, 0, k, r),
            ) by {
                assert(self.module_names(*module, 0, k, r) =~= Set::<Seq<char>>::empty());
                assert(state.used(k, r) =~= state.used(k, r).union(Set::<Seq<char>>::empty()));
            }
        }
        while c < module.connections.len()
            invariant
                0 <= c <= module.connections.len(),
                self.wf(),
                forall|c: int| 0 <= c < module.connections.len() ==> connection_wf(#[trigger] module.connections@[c]),
                pre == *old(state),
                self.keys_seeded(pre),
                self.grows_by(
                    pre,
                    *state,
                    |k: Seq<char>, r: Seq<char>| self.module_signal_hit(*module, c as int, k, r),
                    |k: Seq<char>, r: Seq<char>| self.module_names(*module, c as int, k, r),
                    |r: Seq<char>| self.module_observed(*module, c as int, r),
                ),
            decreases module.connections.len() - c,
        {
            let ghost before = *state;
            let conn = &module.connections[c];
            self.collect_connection(conn, &module.runtimes, state);
            proof {
                let n = c as int;
                assert forall|k: Seq<char>, r: Seq<char>| #[trigger] state.has_bucket(k, r) == (pre.has_bucket(k, r)
                    || self.module_signal_hit(*module, n + 1, k, r)) by {
                    assert(before.has_bucket(k, r) == (pre.has_bucket(k, r) || self.module_signal_hit(*module, n, k, r)));
                    if self.module_signal_hit(*module, n + 1, k, r) && !self.module_signal_hit(*module, n, k, r) {
                        let j = choose|j: int| 0 <= j < n + 1 && #[trigger] self.signal_hit(module.connections@[j], module.runtimes@, k, r);
                        assert(j == n);
                    }
                    if self.signal_hit(module.connections@[n], module.runtimes@, k, r) {
                        assert(self.module_signal_hit(*module, n + 1, k, r));
                    }
                }
                assert forall|k: Seq<char>, r: Seq<char>| #[trigger] state.used(k, r) == pre.used(k, r).union(
                    self.module_names(*module, n + 1, k, r),
                ) by {
                    assert(before.used(k, r) == pre.used(k, r).union(self.module_names(*module, n, k, r)));
                    assert(self.module_names(*module, n + 1, k, r) =~= self.module_names(*module, n, k, r).union(
                        self.hit_names(module.connections@[n], module.runtimes@, k, r))) by {
                        assert forall|x: Seq<char>| #[trigger] self.module_names(*module, n + 1, k, r).contains(x) implies
                            self.module_names(*module, n, k, r).union(self.hit_names(module.connections@[n], module.runtimes@, k, r)).contains(x) by {
                            let j = choose|j: int| 0 <= j < n + 1 && (#[trigger] self.hit_names(module.connections@[j], module.runtimes@, k, r)).contains(x);
                        }
                    }
                    assert(state.used(k, r) =~= pre.used(k, r).union(self.module_names(*module, n + 1, k, r)));
                }
                assert forall|r: Seq<char>| #[trigger] state.registered(r) == (pre.registered(r)
                    || self.module_observed(*module, n + 1, r)) by {
                    assert(before.registered(r) == (pre.registered(r) || self.module_observed(*module, n, r)));
                    if self.module_observed(*module, n + 1, r) && !self.module_observed(*module, n, r) {
                        let j = choose|j: int| 0 <= j < n + 1 && #[trigger] self.signal_hit(module.connections@[j], module.runtimes@, module.connections@[j].request@, r);
                        assert(j == n);
                    }
                    if self.signal_hit(module.connections@[n], module.runtimes@, module.connections@[n].request@, r) {
                        assert(self.module_observed(*module, n + 1, r));
                    }
                }
            }
            c = c + 1;
        }
    }

    /// Walks every module of the graph and records, per shared key and runtime, the
    /// exports that live static imports use.
    pub fn collect_referenced_exports(&self, g: &ModuleGraph, state: &mut OptimizeCompilationState)
        requires
            self.wf(),
            g.wf(),
            old(state).wf(),
            self.keys_seeded(*old(state)),
        ensures
            self.grows_by(
                *old(state),
                *final(state),
                |k: Seq<char>, r: Seq<char>| self.graph_signal_hit(*g, g.modules.len() as int, k, r),
                |k: Seq<char>, r: Seq<char>| self.graph_names(*g, g.modules.len() as int, k, r),
                |r: Seq<char>| self.graph_observed(*g, g.modules.len() as int, r),
            ),
    {
        let ghost pre = *state;
        let mut m: usize = 0;
        proof {
            assert forall|k: Seq<char>, r: Seq<char>| #[trigger] state.used(k, r) == pre.used(k, r).union(
                self.graph_names(*g, 0, k, r),
            ) by {
                assert(self.graph_names(*g, 0, k, r) =~= Set::<Seq<char>>::empty());
                assert(state.used(k, r) =~= state.used(k, r).union(Set::<Seq<char>>::empty()));
            }
        }
        while m < g.modules.len()
            invariant
                0 <= m <= g.modules.len(),
                self.wf(),
                g.wf(),
                pre == *old(state),
                self.keys_seeded(pre),
                self.grows_by(
                    pre,
                    *state,
                    |k: Seq<char>, r: Seq<char>| self.graph_signal_hit(*g, m as int, k, r),
                    |k: Seq<char>, r: Seq<char>| self.graph_names(*g, m as int, k, r),
                    |r: Seq<char>| self.graph_observed(*g, m as int, r),
                ),
            decreases g.modules.len() - m,
        {
            let ghost before = *state;
            let module = &g.modules[m];
            proof {
                assert forall|c: int| 0 <= c < module.connections.len() implies connection_wf(#[trigger] module.connections@[c]) by {
                    assert(g.modules@[m as int].connections@[c] == module.connections@[c]);
                }
            }
            self.collect_module(module, state);
            proof {
                let n = m as int;
                let mo = g.modules@[n];
                let len = mo.connections.len() as int;
                assert forall|k: Seq<char>, r: Seq<char>| #[trigger] state.has_bucket(k, r) == (pre.has_bucket(k, r)
                    || self.graph_signal_hit(*g, n + 1, k, r)) by {
                    assert(before.has_bucket(k, r) == (pre.has_bucket(k, r) || self.graph_signal_hit(*g, n, k, r)));
                    if self.graph_signal_hit(*g, n + 1, k, r) && !self.graph_signal_hit(*g, n, k, r) {
                        let j = choose|j: int| 0 <= j < n + 1 && #[trigger] self.module_signal_hit(g.modules@[j], g.modules@[j].connections.len() as int, k, r);
                        assert(j == n);
                    }
                    if self.module_signal_hit(mo, len, k, r) {
                        assert(self.graph_signal_hit(*g, n + 1, k, r));
                    }
                }
                assert forall|k: Seq<char>, r: Seq<char>| #[trigger] state.used(k, r) == pre.used(k, r).union(
                    self.graph_names(*g, n + 1, k, r),
                ) by {
                    assert(before.used(k, r) == pre.used(k, r).union(self.graph_names(*g, n, k, r)));
                    assert(self.graph_names(*g, n + 1, k, r) =~= self.graph_names(*g, n, k, r).union(
                        self.module_names(mo, len, k, r))) by {
                        assert forall|x: Seq<char>| #[trigger] self.graph_names(*g, n + 1, k, r).contains(x) implies
                            self.graph_names(*g, n, k, r).union(self.module_names(mo, len, k, r)).contains(x) by {
                            let j = choose|j: int| 0 <= j < n + 1 && (#[trigger] self.module_names(g.modules@[j], g.modules@[j].connections.len() as int, k, r)).contains(x);
                        }
                    }
                    assert(state.used(k, r) =~= pre.used(k, r).union(self.graph_names(*g, n + 1, k, r)));
                }
                assert forall|r: Seq<char>| #[trigger] state.registered(r) == (pre.registered(r)
                    || self.graph_observed(*g, n + 1, r)) by {
                    assert(before.registered(r) == (pre.registered(r) || self.graph_observed(*g, n, r)));
                    if self.graph_observed(*g, n + 1, r) && !self.graph_observed(*g, n, r) {
                        let j = choose|j: int| 0 <= j < n + 1 && #[trigger] self.module_observed(g.modules@[j], g.modules@[j].connections.len() as int, r);
                        assert(j == n);
                    }
                    if self.module_observed(mo, len, r) {
                        assert(self.graph_observed(*g, n + 1, r));
                    }
                }
            }
            m = m + 1;
        }
    }

    /// The forced and override exports of `k` go to its bucket in `r`: `k` has some, and
    /// `r` was observed in `pre` and is not ignored.
    pub open spec fn override_applies(&self, pre: OptimizeCompilationState, k: Seq<char>, r: Seq<char>) -> bool {
        &&& self.is_shared(k)
        &&& self.has_signal(k)
        &&& pre.registered(r)
        &&& !self.ignored(r)
    }

    /// As `override_applies`, for a key among the first `n` of the shared map.
    pub open spec fn override_upto(&self, pre: OptimizeCompilationState, n: int, k: Seq<char>, r: Seq<char>) -> bool {
        &&& self.override_applies(pre, k, r)
        &&& exists|j: int| 0 <= j < n && (#[trigger] self.shared_map@[j]).share_key@ == k
    }

    /// The names the override step adds to `k` in `r`.
    pub open spec fn override_names(&self, pre: OptimizeCompilationState, k: Seq<char>, r: Seq<char>) -> Set<Seq<char>> {
        if self.override_applies(pre, k, r) {
            self.forced(k).union(self.custom(k))
        } else {
            Set::<Seq<char>>::empty()
        }
    }

    /// Adds the forced and override exports of each shared key to its bucket in every
    /// runtime observed so far that is not ignored.
    pub fn apply_custom_exports(&self, state: &mut OptimizeCompilationState)
        requires
            self.wf(),
            old(state).wf(),
            self.keys_seeded(*old(state)),
        ensures
            self.grows_by(
                *old(state),
                *final(state),
                |k: Seq<char>, r: Seq<char>| self.override_applies(*old(state), k, r),
                |k: Seq<char>, r: Seq<char>| self.override_names(*old(state), k, r),
                |r: Seq<char>| false,
            ),
            final(state).runtime_specs == old(state).runtime_specs,
    {
        let ghost pre = *state;
        let runtimes = copy_names(&state.runtime_specs);
        let mut i: usize = 0;
        proof {
            assert forall|k: Seq<char>, r: Seq<char>| #[trigger] state.used(k, r) == pre.used(k, r).union(
                if self.override_upto(pre, 0, k, r) { self.forced(k).union(self.custom(k)) } else { Set::<Seq<char>>::empty() },
            ) by {
                assert(state.used(k, r) =~= state.used(k, r).union(Set::<Seq<char>>::empty()));
            }
        }
        while i < self.shared_map.len()
            invariant
                0 <= i <= self.shared_map.len(),
                self.wf(),
                pre == *old(state),
                self.keys_seeded(pre),
                name_set(runtimes@) == name_set(pre.runtime_specs@),
                state.runtime_specs == pre.runtime_specs,
                self.grows_by(
                    pre,
                    *state,
                    |k: Seq<char>, r: Seq<char>| self.override_upto(pre, i as int, k, r),
                    |k: Seq<char>, r: Seq<char>| if self.override_upto(pre, i as int, k, r) {
                        self.forced(k).union(self.custom(k))
                    } else {
                        Set::<Seq<char>>::empty()
                    },
                    |r: Seq<char>| false,
                ),
            decreases self.shared_map.len() - i,
        {
            let key = &self.shared_map[i].share_key;
            let forced = &self.shared_map[i].used_exports;
            proof {
                lemma_lookup_at(self.shared_map@, i as int);
                lemma_name_set_empty(forced@);
            }
            let mut names = copy_names(forced);
            match find_entry(&self.custom_referenced_exports, key) {
                Some(j) => {
                    extend_names(&mut names, &self.custom_referenced_exports[j].used_exports);
                },
                None => {},
            }
            assert(name_set(names@) == self.forced(key@).union(self.custom(key@)));
            proof {
                lemma_name_set_empty(names@);
                if self.has_signal(key@) {
                    if self.forced(key@) != Set::<Seq<char>>::empty() {
                        assert(self.forced(key@).union(self.custom(key@)) != Set::<Seq<char>>::empty()) by {
                            let x = choose|x: Seq<char>| self.forced(key@).contains(x);
                            if forall|x: Seq<char>| !self.forced(key@).contains(x) {
                                assert(self.forced(key@) =~= Set::<Seq<char>>::empty());
                            }
                            assert(self.forced(key@).union(self.custom(key@)).contains(x));
                        }
                    } else {
                        assert(self.forced(key@).union(self.custom(key@)) != Set::<Seq<char>>::empty()) by {
                            if forall|x: Seq<char>| !self.custom(key@).contains(x) {
                                assert(self.custom(key@) =~= Set::<Seq<char>>::empty());
                            }
                            let x = choose|x: Seq<char>| self.custom(key@).contains(x);
                            assert(self.forced(key@).union(self.custom(key@)).contains(x));
                        }
                    }
                } else {
                    assert(self.forced(key@).union(self.custom(key@)) =~= Set::<Seq<char>>::empty());
                }
            }
            let signal = names.len() > 0;
            assert(signal == self.has_signal(key@));
            let ghost outer = *state;
            let mut t: usize = 0;
            if signal {
                proof {
                    assert(name_set(runtimes@.subrange(0, 0)) =~= Set::<Seq<char>>::empty());
                }
                while t < runtimes.len()
                    invariant
                        0 <= t <= runtimes.len(),
                        0 <= i < self.shared_map.len(),
                        self.wf(),
                        key == &self.shared_map@[i as int].share_key,
                        self.has_signal(key@),
                        name_set(names@) == self.forced(key@).union(self.custom(key@)),
                        pre == *old(state),
                        self.keys_seeded(pre),
                        name_set(runtimes@) == name_set(pre.runtime_specs@),
                        state.runtime_specs == pre.runtime_specs,
                        self.grows_by(
                            pre,
                            *state,
                            |k: Seq<char>, r: Seq<char>| self.override_upto(pre, i as int, k, r) || (k == key@
                                && self.override_applies(pre, k, r) && name_set(runtimes@.subrange(0, t as int)).contains(r)),
                            |k: Seq<char>, r: Seq<char>| if self.override_upto(pre, i as int, k, r) || (k == key@
                                && self.override_applies(pre, k, r) && name_set(runtimes@.subrange(0, t as int)).contains(r)) {
                                self.forced(k).union(self.custom(k))
                            } else {
                                Set::<Seq<char>>::empty()
                            },
                            |r: Seq<char>| false,
                        ),
                    decreases runtimes.len() - t,
                {
                    let rt = &runtimes[t];
                    let ghost before = *state;
                    proof {
                        lemma_name_set_prefix_step(runtimes@, t as int);
                        assert(name_set(runtimes@).contains(rt@));
                    }
                    if !contains_name(&self.ignored_runtime, rt) {
                        proof {
                            assert(self.is_shared(key@));
                        }
                        state.add_exports(key, rt, &names);
                        proof {
                            assert forall|k: Seq<char>, r: Seq<char>| #[trigger] state.used(k, r) == pre.used(k, r).union(
                                if self.override_upto(pre, i as int, k, r) || (k == key@
                                    && self.override_applies(pre, k, r) && name_set(runtimes@.subrange(0, t + 1)).contains(r)) {
                                    self.forced(k).union(self.custom(k))
                                } else {
                                    Set::<Seq<char>>::empty()
                                }) by {
                                if k == key@ && r == rt@ {
                                    assert(self.override_applies(pre, k, r));
                                    assert(state.used(k, r) =~= pre.used(k, r).union(self.forced(k).union(self.custom(k))));
                                }
                            }
                        }
                    }
                    t = t + 1;
                }
            }
            proof {
                assert(runtimes@.subrange(0, runtimes.len() as int) =~= runtimes@);
                assert forall|k: Seq<char>, r: Seq<char>| #[trigger] self.override_upto(pre, i + 1, k, r) == (
                    self.override_upto(pre, i as int, k, r) || (k == key@ && self.override_applies(pre, k, r))) by {
                    if self.override_upto(pre, i + 1, k, r) && !self.override_upto(pre, i as int, k, r) {
                        let j = choose|j: int| 0 <= j < i + 1 && (#[trigger] self.shared_map@[j]).share_key@ == k;
                        assert(j == i);
                    }
                    if k == key@ && self.override_applies(pre, k, r) {
                        assert(self.shared_map@[i as int].share_key@ == k);
                    }
                }
                if !signal {
                    assert forall|k: Seq<char>, r: Seq<char>| #[trigger] state.used(k, r) == pre.used(k, r).union(
                        if self.override_upto(pre, i + 1, k, r) { self.forced(k).union(self.custom(k)) } else { Set::<Seq<char>>::empty() },
                    ) by {
                        if k == key@ {
                            assert(self.forced(k).union(self.custom(k)) =~= Set::<Seq<char>>::empty());
                        }
                    }
                } else {
                    assert forall|k: Seq<char>, r: Seq<char>| #[trigger] state.used(k, r) == pre.used(k, r).union(
                        if self.override_upto(pre, i + 1, k, r) { self.forced(k).union(self.custom(k)) } else { Set::<Seq<char>>::empty() },
                    ) by {
                        if k == key@ && self.override_applies(pre, k, r) {
                            assert(name_set(runtimes@).contains(r));
                        }
                    }
                }
            }
            i = i + 1;
        }
        proof {
            assert forall|k: Seq<char>, r: Seq<char>| #[trigger] self.override_upto(pre, self.shared_map.len() as int, k, r)
                == self.override_applies(pre, k, r) by {
                if self.override_applies(pre, k, r) {
                    let j = choose|j: int| 0 <= j < self.shared_map.len() && (#[trigger] self.shared_map@[j]).share_key@ == k;
                }
            }
        }
    }

    /// `c` is the first connection of `m` that leads from a provide module to the
    /// module it provides.
    pub open spec fn first_provide_at(m: Module, c: int) -> bool {
        &&& 0 <= c < m.connections.len()
        &&& m.connections@[c].dependency_type == DependencyType::ProvideModuleForShared
        &&& forall|j: int| 0 <= j < c ==> (#[trigger] m.connections@[j]).dependency_type != DependencyType::ProvideModuleForShared
    }

    /// Module `m` of `g` provides the shared key `k` and has a fallback module.
    pub open spec fn provides(&self, g: ModuleGraph, m: int, k: Seq<char>) -> bool {
        &&& 0 <= m < g.modules.len()
        &&& g.modules@[m].provide_share_key matches Some(s) && s@ == k
        &&& self.is_shared(k)
        &&& exists|c: int| #[trigger] Self::first_provide_at(g.modules@[m], c)
    }

    /// The pair `p` is that of the last module of `g` that provides its key.
    pub open spec fn is_last_provider(&self, g: ModuleGraph, p: ProvidePair) -> bool {
        &&& self.provides(g, p.provide as int, p.share_key@)
        &&& exists|c: int| #[trigger] Self::first_provide_at(g.modules@[p.provide as int], c)
            && g.modules@[p.provide as int].connections@[c].target == p.fallback
        &&& forall|m: int| p.provide < m < g.modules.len() ==> !#[trigger] self.provides(g, m, p.share_key@)
    }

    /// The target of the first provide edge of `module`, if it has one.
    pub fn find_fallback_module(module: &Module) -> (r: Option<usize>)
        ensures
            r is None ==> forall|c: int| !#[trigger] Self::first_provide_at(*module, c),
            r matches Some(t) ==> exists|c: int| #[trigger] Self::first_provide_at(*module, c)
                && module.connections@[c].target == t,
    {
        let mut i: usize = 0;
        while i < module.connections.len()
            invariant
                0 <= i <= module.connections.len(),
                forall|j: int| 0 <= j < i ==> (#[trigger] module.connections@[j]).dependency_type != DependencyType::ProvideModuleForShared,
            decreases module.connections.len() - i,
        {
            if module.connections[i].dependency_type == DependencyType::ProvideModuleForShared {
                assert(Self::first_provide_at(*module, i as int));
                return Some(module.connections[i].target);
            }
            i = i + 1;
        }
        None
    }

    /// Finds, for each shared key, the module that provides it and that module's
    /// fallback; where several modules provide one key, the last one is kept.
    pub fn populate_provide_mappings(&self, g: &ModuleGraph, state: &mut OptimizeCompilationState)
        requires
            self.wf(),
            old(state).share_key_to_modules.len() == 0,
        ensures
            final(state).share_keys == old(state).share_keys,
            final(state).entries == old(state).entries,
            final(state).runtime_specs == old(state).runtime_specs,
            forall|i: int, j: int|
                0 <= i < final(state).share_key_to_modules.len() && 0 <= j < final(state).share_key_to_modules.len() && i != j
                    ==> (#[trigger] final(state).share_key_to_modules@[i]).share_key@
                    != (#[trigger] final(state).share_key_to_modules@[j]).share_key@,
            forall|i: int|
                0 <= i < final(state).share_key_to_modules.len() ==> self.is_last_provider(
                    *g,
                    #[trigger] final(state).share_key_to_modules@[i],
                ),
            forall|m: int, k: Seq<char>|
                #[trigger] self.provides(*g, m, k) ==> exists|i: int|
                    0 <= i < final(state).share_key_to_modules.len()
                        && (#[trigger] final(state).share_key_to_modules@[i]).share_key@ == k,
    {
        let mut m: usize = 0;
        while m < g.modules.len()
            invariant
                0 <= m <= g.modules.len(),
                self.wf(),
                state.share_keys == old(state).share_keys,
                state.entries == old(state).entries,
                state.runtime_specs == old(state).runtime_specs,
                forall|i: int, j: int|
                    0 <= i < state.share_key_to_modules.len() && 0 <= j < state.share_key_to_modules.len() && i != j
                        ==> (#[trigger] state.share_key_to_modules@[i]).share_key@
                        != (#[trigger] state.share_key_to_modules@[j]).share_key@,
                forall|i: int|
                    0 <= i < state.share_key_to_modules.len() ==> (#[trigger] state.share_key_to_modules@[i]).provide < m
                        && self.provides(*g, state.share_key_to_modules@[i].provide as int, state.share_key_to_modules@[i].share_key@)
                        && (exists|c: int| #[trigger] Self::first_provide_at(g.modules@[state.share_key_to_modules@[i].provide as int], c)
                            && g.modules@[state.share_key_to_modules@[i].provide as int].connections@[c].target == state.share_key_to_modules@[i].fallback)
                        && forall|m2: int| state.share_key_to_modules@[i].provide < m2 < m ==> !#[trigger] self.provides(*g, m2, state.share_key_to_modules@[i].share_key@),
                forall|m2: int, k: Seq<char>|
                    0 <= m2 < m && #[trigger] self.provides(*g, m2, k) ==> exists|i: int|
                        0 <= i < state.share_key_to_modules.len()
                            && (#[trigger] state.share_key_to_modules@[i]).share_key@ == k,
            decreases g.modules.len() - m,
        {
            let module = &g.modules[m];
            let ghost old_pairs = state.share_key_to_modules@;
            let mut added = false;
            match &module.provide_share_key {
                Some(key) => {
                    if find_entry(&self.shared_map, key).is_some() {
                        match Self::find_fallback_module(module) {
                            Some(fallback) => {
                                proof {
                                    assert(self.provides(*g, m as int, key@));
                                }
                                let mut i: usize = 0;
                                let mut found = false;
                                while i < state.share_key_to_modules.len()
                                    invariant_except_break
                                        !found,
                                    invariant
                                        0 <= i <= state.share_key_to_modules.len(),
                                        state.share_key_to_modules@ == old_pairs,
                                        state.share_keys == old(state).share_keys,
                                        state.entries == old(state).entries,
                                        state.runtime_specs == old(state).runtime_specs,
                                        forall|j: int| 0 <= j < i ==> (#[trigger] old_pairs[j]).share_key@ != key@,
                                    ensures
                                        found ==> i < old_pairs.len() && old_pairs[i as int].share_key@ == key@,
                                        !found ==> i == old_pairs.len(),
                                    decreases state.share_key_to_modules.len() - i,
                                {
                                    if state.share_key_to_modules[i].share_key == *key {
                                        found = true;
                                        break;
                                    }
                                    i = i + 1;
                                }
                                let pair = ProvidePair { share_key: copy_name(key), provide: m, fallback };
                                if found {
                                    state.share_key_to_modules.set(i, pair);
                                } else {
                                    state.share_key_to_modules.push(pair);
                                }
                                added = true;
                                proof {
                                    let at = i as int;
                                    let np = state.share_key_to_modules@;
                                    assert(np[at].share_key@ == key@);
                                    assert(found ==> old_pairs[at].share_key@ == key@);
                                    assert(!found ==> at == old_pairs.len());
                                    assert forall|j: int| 0 <= j < np.len() && j != at implies #[trigger] np[j] == old_pairs[j] by {}
                                    assert forall|j: int| 0 <= j < np.len() && j != at implies (#[trigger] np[j]).share_key@ != key@ by {
                                        if found {
                                            assert(old_pairs[j].share_key@ != old_pairs[at].share_key@);
                                        }
                                    }
                                    assert(np[at].provide == m && np[at].fallback == fallback);
                                }
                            },
                            None => {
                                proof {
                                    assert(!self.provides(*g, m as int, key@));
                                }
                            },
                        }
                    }
                },
                None => {},
            }
            proof {
                let np = state.share_key_to_modules@;
                if !added {
                    assert(np == old_pairs);
                    assert forall|k: Seq<char>| !#[trigger] self.provides(*g, m as int, k) by {}
                    assert forall|i: int|
                        0 <= i < np.len() implies (#[trigger] np[i]).provide < m + 1
                            && forall|m2: int| np[i].provide < m2 < m + 1 ==> !#[trigger] self.provides(*g, m2, np[i].share_key@) by {
                        assert(!self.provides(*g, m as int, np[i].share_key@));
                    }
                } else {
                    let key = module.provide_share_key->Some_0;
                    let at = choose|at: int| 0 <= at < np.len() && np[at].share_key@ == key@ && np[at].provide == m
                        && (forall|j: int| 0 <= j < np.len() && j != at ==> #[trigger] np[j] == old_pairs[j])
                        && (forall|j: int| 0 <= j < np.len() && j != at ==> (#[trigger] np[j]).share_key@ != key@)
                        && (at < old_pairs.len() ==> old_pairs[at].share_key@ == key@)
                        && (at == old_pairs.len() || at < old_pairs.len())
                        && (exists|c: int| #[trigger] Self::first_provide_at(g.modules@[m as int], c)
                            && g.modules@[m as int].connections@[c].target == np[at].fallback);
                    assert forall|i: int|
                        0 <= i < np.len() implies (#[trigger] np[i]).provide < m + 1
                            && self.provides(*g, np[i].provide as int, np[i].share_key@)
                            && (exists|c: int| #[trigger] Self::first_provide_at(g.modules@[np[i].provide as int], c)
                                && g.modules@[np[i].provide as int].connections@[c].target == np[i].fallback)
                            && forall|m2: int| np[i].provide < m2 < m + 1 ==> !#[trigger] self.provides(*g, m2, np[i].share_key@) by {
                        if i != at {
                            assert(np[i] == old_pairs[i]);
                            assert forall|m2: int| np[i].provide < m2 < m + 1 implies !#[trigger] self.provides(*g, m2, np[i].share_key@) by {
                                if m2 == m {
                                    assert(np[i].share_key@ != key@);
                                }
                            }
                        } else {
                            assert(self.provides(*g, m as int, key@));
                        }
                    }
                    assert forall|m2: int, k: Seq<char>|
                        0 <= m2 < m + 1 && #[trigger] self.provides(*g, m2, k) implies exists|i: int|
                            0 <= i < np.len() && (#[trigger] np[i]).share_key@ == k by {
                        if m2 < m {
                            let i = choose|i: int| 0 <= i < old_pairs.len() && (#[trigger] old_pairs[i]).share_key@ == k;
                            if i != at {
                                assert(np[i] == old_pairs[i]);
                            } else {
                                assert(np[at].share_key@ == k);
                            }
                        } else {
                            assert(np[at].share_key@ == k);
                        }
                    }
                    assert forall|a: int, b: int|
                        0 <= a < np.len() && 0 <= b < np.len() && a != b implies (#[trigger] np[a]).share_key@ != (#[trigger] np[b]).share_key@ by {
                        if a != at && b != at {
                            assert(np[a] == old_pairs[a]);
                            assert(np[b] == old_pairs[b]);
                        }
                    }
                }
            }
            m = m + 1;
        }
    }

    /// After a pass over `g`, `k` has a bucket in `r`.
    pub open spec fn pass_bucket(&self, g: ModuleGraph, k: Seq<char>, r: Seq<char>) -> bool {
        self.graph_signal_hit(g, g.modules.len() as int, k, r) || (self.is_shared(k) && self.has_signal(k)
            && self.graph_observed(g, g.modules.len() as int, r) && !self.ignored(r))
    }

    /// After the collection and override steps of a pass over `g`, the names of `k` in `r`.
    pub open spec fn pass_names(&self, g: ModuleGraph, k: Seq<char>, r: Seq<char>) -> Set<Seq<char>> {
        self.graph_names(g, g.modules.len() as int, k, r).union(
            if self.is_shared(k) && self.has_signal(k) && self.graph_observed(g, g.modules.len() as int, r)
                && !self.ignored(r) {
                self.forced(k).union(self.custom(k))
            } else {
                Set::<Seq<char>>::empty()
            },
        )
    }

    /// After the collection and override steps of a pass over `g`, the names of `k` in
    /// any runtime.
    pub open spec fn pass_flat(&self, g: ModuleGraph, k: Seq<char>) -> Set<Seq<char>> {
        Set::new(|x: Seq<char>| exists|r: Seq<char>| #[trigger] self.pass_names(g, k, r).contains(x))
    }

    /// What a pass did for the provide/fallback pair `p`, from graph `g0` to `g1` and
    /// table `st`.
    pub open spec fn pass_pair_marked(&self, g0: ModuleGraph, g1: ModuleGraph, st: OptimizeCompilationState, p: ProvidePair) -> bool {
        let prov = p.provide as int;
        let fb = p.fallback as int;
        let k = p.share_key@;
        &&& g1.modules@[prov].side_effect_free == Some(true)
        &&& fallback_side_effect_free(g0, prov, fb) ==> is_marked_by(
            g0.modules@[fb].exports_info,
            g1.modules@[fb].exports_info,
            |r: Seq<char>| self.pass_names(g0, k, r),
            self.pass_flat(g0, k),
        ) && (forall|r: Seq<char>| #[trigger] st.used(k, r) == self.pass_names(g0, k, r))
        &&& !fallback_side_effect_free(g0, prov, fb) ==> g1.modules@[fb].exports_info == g0.modules@[fb].exports_info
            && (forall|r: Seq<char>| #[trigger] st.used(k, r) == Set::<Seq<char>>::empty())
    }

    /// Along `gs`, from `g0` to `g1`, the pairs of `st` are marked in order from the
    /// names a pass over `g0` collects, leaving the table `st`.
    pub open spec fn pass_marked(&self, gs: Seq<ModuleGraph>, g0: ModuleGraph, g1: ModuleGraph, st: OptimizeCompilationState) -> bool {
        &&& gs.len() > 0
        &&& gs[0] == g0
        &&& gs.last() == g1
        &&& marked_in_order(
            gs,
            st.share_key_to_modules@,
            |k: Seq<char>, r: Seq<char>| self.pass_names(g0, k, r),
            |k: Seq<char>| self.pass_flat(g0, k),
        )
        &&& table_after_marking(
            st,
            gs,
            st.share_key_to_modules@,
            |k: Seq<char>, r: Seq<char>| self.pass_names(g0, k, r),
            |k: Seq<char>| self.pass_flat(g0, k),
        )
    }

    /// One optimisation pass of a session: reset the table, pair provide and fallback
    /// modules, collect used exports from the graph, apply the forced and override
    /// exports, and mark the fallback lattices.
    pub fn optimize_dependencies(&self, g: &mut ModuleGraph, state: &mut OptimizeCompilationState)
        requires
            self.wf(),
            old(g).wf(),
            lattices_wf(*old(g)),
        ensures
            final(state).wf(),
            exists|gs: Seq<ModuleGraph>| #[trigger] self.pass_marked(gs, *old(g), *final(g), *final(state)),
            forall|k: Seq<char>| #[trigger] name_set(final(state).share_keys@).contains(k) == self.is_shared(k),
            forall|r: Seq<char>| #[trigger] final(state).registered(r) == self.graph_observed(*old(g), old(g).modules.len() as int, r),
            forall|k: Seq<char>, r: Seq<char>| #[trigger] final(state).has_bucket(k, r) == self.pass_bucket(*old(g), k, r),
            forall|i: int| 0 <= i < final(state).share_key_to_modules.len() ==> self.is_last_provider(
                *old(g),
                #[trigger] final(state).share_key_to_modules@[i],
            ),
            forall|m: int, k: Seq<char>|
                #[trigger] self.provides(*old(g), m, k) ==> exists|i: int|
                    0 <= i < final(state).share_key_to_modules.len()
                        && (#[trigger] final(state).share_key_to_modules@[i]).share_key@ == k,
            final(g).modules.len() == old(g).modules.len(),
            final(g).wf(),
            lattices_wf(*final(g)),
            forall|m: int| 0 <= m < final(g).modules.len() ==> same_shape(old(g).modules@[m], #[trigger] final(g).modules@[m]),
            forall|i: int| 0 <= i < final(state).share_key_to_modules.len()
                ==> final(g).modules@[(#[trigger] final(state).share_key_to_modules@[i]).provide as int].side_effect_free == Some(true),
            pairs_disjoint(*old(g), final(state).share_key_to_modules@) ==> (forall|i: int|
                0 <= i < final(state).share_key_to_modules.len() ==> self.pass_pair_marked(
                    *old(g),
                    *final(g),
                    *final(state),
                    #[trigger] final(state).share_key_to_modules@[i],
                )) && (forall|m: int|
                0 <= m < final(g).modules.len() && !in_some_pair(final(state).share_key_to_modules@, m) ==> #[trigger] final(g).modules@[m]
                    == old(g).modules@[m]) && (forall|k: Seq<char>, r: Seq<char>|
                !crate::marker::key_paired(final(state).share_key_to_modules@, k) ==> #[trigger] final(state).used(k, r) == self.pass_names(*old(g), k, r)),
    {
        let ghost g0 = *g;
        let keys = self.shared_keys();
        state.reset(&keys);
        self.populate_provide_mappings(g, state);
        proof {
            assert forall|k: Seq<char>| self.is_shared(k) implies #[trigger] name_set(state.share_keys@).contains(k) by {}
        }
        let ghost st0 = *state;
        self.collect_referenced_exports(g, state);
        let ghost st1 = *state;
        self.apply_custom_exports(state);
        let ghost st2 = *state;
        proof {
            assert forall|k: Seq<char>, r: Seq<char>| #[trigger] st2.used(k, r) == self.pass_names(g0, k, r) by {
                assert(st0.used(k, r) =~= Set::<Seq<char>>::empty()) by {
                    assert forall|x: Seq<char>| !st0.used(k, r).contains(x) by {}
                }
                assert(st1.used(k, r) == st0.used(k, r).union(self.graph_names(g0, g0.modules.len() as int, k, r)));
                assert(st2.used(k, r) =~= self.pass_names(g0, k, r));
            }
            assert forall|k: Seq<char>, r: Seq<char>| #[trigger] st2.has_bucket(k, r) == self.pass_bucket(g0, k, r) by {
                assert(!st0.has_bucket(k, r));
            }
            assert forall|r: Seq<char>| #[trigger] st2.registered(r) == self.graph_observed(g0, g0.modules.len() as int, r) by {
                assert(!st0.registered(r));
                assert(st1.registered(r) == self.graph_observed(g0, g0.modules.len() as int, r));
            }
            assert forall|i: int| 0 <= i < st2.share_key_to_modules.len() implies (#[trigger] st2.share_key_to_modules@[i]).provide < g0.modules.len()
                && st2.share_key_to_modules@[i].fallback < g0.modules.len() by {
                let p = st2.share_key_to_modules@[i];
                assert(self.is_last_provider(g0, p));
                let c = choose|c: int| #[trigger] Self::first_provide_at(g0.modules@[p.provide as int], c)
                    && g0.modules@[p.provide as int].connections@[c].target == p.fallback;
                assert(g0.modules@[p.provide as int].connections@[c].target < g0.modules.len());
            }
        }
        mark_exports(g, state);
        proof {
            let pairs = state.share_key_to_modules@;
            assert forall|k: Seq<char>| #[trigger] st2.flat_used(k) == self.pass_flat(g0, k) by {
                st2.lemma_flat_used(k);
                assert forall|x: Seq<char>| #[trigger] st2.flat_used(k).contains(x) == self.pass_flat(g0, k).contains(x) by {
                    if st2.flat_used(k).contains(x) {
                        let r = choose|r: Seq<char>| #[trigger] st2.used(k, r).contains(x);
                        assert(self.pass_names(g0, k, r).contains(x));
                    }
                    if self.pass_flat(g0, k).contains(x) {
                        let r = choose|r: Seq<char>| #[trigger] self.pass_names(g0, k, r).contains(x);
                        assert(st2.used(k, r).contains(x));
                    }
                }
                assert(st2.flat_used(k) =~= self.pass_flat(g0, k));
            }
            let gs = choose|gs: Seq<ModuleGraph>| #[trigger] marks_session(gs, g0, *g, st2, *state);
            let u1 = |k: Seq<char>, r: Seq<char>| st2.used(k, r);
            let f1 = |k: Seq<char>| st2.flat_used(k);
            let u2 = |k: Seq<char>, r: Seq<char>| self.pass_names(g0, k, r);
            let f2 = |k: Seq<char>| self.pass_flat(g0, k);
            assert forall|i: int| 0 <= i < pairs.len() implies #[trigger] step_marked(gs[i], gs[i + 1], pairs[i], u2, f2) by {
                assert(step_marked(gs[i], gs[i + 1], pairs[i], u1, f1));
                lemma_step_marked_congruent(gs[i], gs[i + 1], pairs[i], u1, f1, u2, f2);
            }
            assert(marked_in_order(gs, pairs, u2, f2));
            assert(table_after_marking(*state, gs, pairs, u1, f1));
            assert(table_after_marking(*state, gs, pairs, u2, f2));
            assert(self.pass_marked(gs, g0, *g, *state));
            assert forall|r: Seq<char>| #[trigger] state.registered(r) == self.graph_observed(g0, g0.modules.len() as int, r) by {
                assert(state.runtime_specs == st2.runtime_specs);
                assert(st2.registered(r) == self.graph_observed(g0, g0.modules.len() as int, r));
            }
            assert forall|m: int, c: int|
                0 <= m < g.modules.len() && 0 <= c < g.modules@[m].connections.len() implies (#[trigger] g.modules@[m].connections@[c]).target < g.modules.len()
                    && crate::graph::connection_wf(g.modules@[m].connections@[c]) by {
                assert(same_shape(g0.modules@[m], g.modules@[m]));
                assert(g0.modules@[m].connections@[c] == g.modules@[m].connections@[c]);
            }
            if pairs_disjoint(g0, pairs) {
                assert forall|i: int| 0 <= i < pairs.len() implies self.pass_pair_marked(g0, *g, *state, #[trigger] pairs[i]) by {
                    let p = pairs[i];
                    let k = p.share_key@;
                    assert(pair_marked(g0, *g, st2, *state, p));
                    st2.lemma_flat_used(k);
                    assert(st2.flat_used(k) =~= self.pass_flat(g0, k)) by {
                        assert forall|x: Seq<char>| #[trigger] st2.flat_used(k).contains(x) == self.pass_flat(g0, k).contains(x) by {
                            if st2.flat_used(k).contains(x) {
                                let r = choose|r: Seq<char>| #[trigger] st2.used(k, r).contains(x);
                                assert(self.pass_names(g0, k, r).contains(x));
                            }
                            if self.pass_flat(g0, k).contains(x) {
                                let r = choose|r: Seq<char>| #[trigger] self.pass_names(g0, k, r).contains(x);
                                assert(st2.used(k, r).contains(x));
                            }
                        }
                    }
                    if fallback_side_effect_free(g0, p.provide as int, p.fallback as int) {
                        let l0 = g0.modules@[p.fallback as int].exports_info;
                        let l1 = g.modules@[p.fallback as int].exports_info;
                        assert(crate::marker::is_marked(l0, l1, st2, k));
                        assert forall|x: Seq<char>, rt: Seq<char>| #[trigger] l1.state_of(x, rt) == crate::marker::marked_state_by(l0, self.pass_names(g0, k, rt), self.pass_flat(g0, k), x, rt) by {
                            assert(l1.state_of(x, rt) == crate::marker::marked_state_by(l0, st2.used(k, rt), st2.flat_used(k), x, rt));
                        }
                        assert forall|rt: Seq<char>| #[trigger] l1.other_at(rt) == crate::marker::marked_other_by(l0, self.pass_names(g0, k, rt), rt) by {
                            assert(l1.other_at(rt) == crate::marker::marked_other_by(l0, st2.used(k, rt), rt));
                        }
                    }
                }
            }
        }
    }
}

} // verus!
