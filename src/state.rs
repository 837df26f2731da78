//! The per-session runtime usage table: for each share key and each runtime, the set
//! of export names seen in use.
use vstd::prelude::*;
use crate::names::{
    copy_name, distinct_names, extend_names, insert_name, is_sorted_listing, merge_sorted, name_set,
    sorted_listing,
};

verus! {

/// One bucket: the export names used under `share_key` in `runtime`.
pub struct RuntimeExportsEntry {
    pub share_key: String,
    pub runtime: String,
    pub exports: Vec<String>,
}

/// A provide module and the fallback module it wraps, for one share key.
pub struct ProvidePair {
    pub share_key: String,
    pub provide: usize,
    pub fallback: usize,
}

/// What one build session knows during an optimisation pass.
pub struct OptimizeCompilationState {
    /// The share keys that take part, each once.
    pub share_keys: Vec<String>,
    /// The runtime buckets, at most one per share key and runtime.
    pub entries: Vec<RuntimeExportsEntry>,
    /// The runtimes observed in this pass, by name, each once.
    pub runtime_specs: Vec<String>,
    /// The provide/fallback module pair found for each share key.
    pub share_key_to_modules: Vec<ProvidePair>,
}

/// A share key and every export name used under it in any runtime, sorted.
pub struct FlatUsedExports {
    pub share_key: String,
    pub exports: Vec<String>,
}

/// A runtime name and the export names used in it, sorted.
pub struct RuntimeExportList {
    pub runtime: String,
    pub exports: Vec<String>,
}

/// A share key and, per runtime, the export names used in it.
pub struct RuntimeUsedExports {
    pub share_key: String,
    pub runtimes: Vec<RuntimeExportList>,
}

pub open spec fn entry_is(e: RuntimeExportsEntry, key: Seq<char>, rt: Seq<char>) -> bool {
    e.share_key@ == key && e.runtime@ == rt
}

/// `f` lists, for each share key of `st` used in some runtime, every name used under it,
/// sorted; each key once, and no key without names.
pub open spec fn flat_listing(st: OptimizeCompilationState, f: Seq<FlatUsedExports>) -> bool {
    &&& forall|i: int|
        0 <= i < f.len() ==> name_set(st.share_keys@).contains((#[trigger] f[i]).share_key@) && is_sorted_listing(
            f[i].exports@,
            st.flat_used(f[i].share_key@),
        ) && f[i].exports.len() > 0
    &&& forall|k: Seq<char>|
        name_set(st.share_keys@).contains(k) && #[trigger] st.flat_used(k) != Set::<Seq<char>>::empty() ==> exists|i: int|
            0 <= i < f.len() && (#[trigger] f[i]).share_key@ == k
    &&& forall|i: int, j: int| 0 <= i < f.len() && 0 <= j < f.len() && i != j ==> (#[trigger] f[i]).share_key@ != (#[trigger] f[j]).share_key@
}

impl OptimizeCompilationState {
    /// A bucket exists for `key` in `rt`.
    pub open spec fn has_bucket(&self, key: Seq<char>, rt: Seq<char>) -> bool {
        exists|i: int| 0 <= i < self.entries.len() && entry_is(#[trigger] self.entries@[i], key, rt)
    }

    /// The export names recorded for `key` in `rt` (empty where no bucket exists).
    pub open spec fn used(&self, key: Seq<char>, rt: Seq<char>) -> Set<Seq<char>> {
        Set::new(
            |x: Seq<char>|
                exists|i: int|
                    0 <= i < self.entries.len() && entry_is(#[trigger] self.entries@[i], key, rt)
                        && name_set(self.entries@[i].exports@).contains(x),
        )
    }

    /// The export names recorded for `key` in any runtime.
    pub open spec fn flat_used(&self, key: Seq<char>) -> Set<Seq<char>> {
        Set::new(
            |x: Seq<char>|
                exists|i: int|
                    0 <= i < self.entries.len() && (#[trigger] self.entries@[i]).share_key@ == key
                        && name_set(self.entries@[i].exports@).contains(x),
        )
    }

    /// `rt` has been observed in this pass.
    pub open spec fn registered(&self, rt: Seq<char>) -> bool {
        name_set(self.runtime_specs@).contains(rt)
    }

    /// Share keys and runtime names are each held once, and a bucket is unique for its
    /// share key and runtime.
    pub open spec fn wf(&self) -> bool {
        &&& distinct_names(self.share_keys@)
        &&& distinct_names(self.runtime_specs@)
        &&& forall|i: int|
            0 <= i < self.entries.len() ==> name_set(self.share_keys@).contains(
                (#[trigger] self.entries@[i]).share_key@,
            )
        &&& forall|i: int, j: int|
            0 <= i < self.entries.len() && 0 <= j < self.entries.len() && i != j
                && (#[trigger] self.entries@[i]).share_key@ == (#[trigger] self.entries@[j]).share_key@
                ==> self.entries@[i].runtime@ != self.entries@[j].runtime@
    }

    /// A state with no bucket, no observed runtime and no module pair.
    pub open spec fn is_fresh(&self, keys: Seq<String>) -> bool {
        &&& self.share_keys@ == keys
        &&& self.entries.len() == 0
        &&& self.runtime_specs.len() == 0
        &&& self.share_key_to_modules.len() == 0
    }

    /// The same buckets, with the same names, as `other`.
    pub open spec fn same_table(&self, other: &Self) -> bool {
        &&& forall|k: Seq<char>, r: Seq<char>| #[trigger]
            self.has_bucket(k, r) == other.has_bucket(k, r)
        &&& forall|k: Seq<char>, r: Seq<char>| #[trigger] self.used(k, r) == other.used(k, r)
    }

    /// Creates the state of a new session, with one empty table entry per share key.
    pub fn new(keys: &Vec<String>) -> (r: Self)
        requires
            distinct_names(keys@),
        ensures
            r.wf(),
            r.is_fresh(keys@),
    {
        OptimizeCompilationState {
            share_keys: keys.clone(),
            entries: Vec::new(),
            runtime_specs: Vec::new(),
            share_key_to_modules: Vec::new(),
        }
    }

    /// Forgets everything of the previous pass and reseeds the share keys.
    pub fn reset(&mut self, keys: &Vec<String>)
        requires
            distinct_names(keys@),
        ensures
            final(self).wf(),
            final(self).is_fresh(keys@),
    {
        self.share_keys = keys.clone();
        self.entries.clear();
        self.runtime_specs.clear();
        self.share_key_to_modules.clear();
    }

    /// The position of the bucket for `key` in `rt`, created empty if absent.
    pub fn runtime_entry_index(&mut self, key: &String, rt: &String) -> (r: usize)
        requires
            old(self).wf(),
            name_set(old(self).share_keys@).contains(key@),
        ensures
            final(self).wf(),
            r < final(self).entries.len(),
            entry_is(final(self).entries@[r as int], key@, rt@),
            final(self).share_keys == old(self).share_keys,
            final(self).runtime_specs == old(self).runtime_specs,
            final(self).share_key_to_modules == old(self).share_key_to_modules,
            old(self).has_bucket(key@, rt@) ==> final(self).entries@ == old(self).entries@,
            !old(self).has_bucket(key@, rt@) ==> final(self).entries@ == old(self).entries@.push(
                final(self).entries@[r as int],
            ) && final(self).entries@[r as int].exports@.len() == 0,
    {
        let mut i: usize = 0;
        while i < self.entries.len()
            invariant
                0 <= i <= self.entries.len(),
                *self == *old(self),
                old(self).wf(),
                forall|j: int| 0 <= j < i ==> !entry_is(#[trigger] self.entries@[j], key@, rt@),
            decreases self.entries.len() - i,
        {
            if self.entries[i].share_key == *key && self.entries[i].runtime == *rt {
                return i;
            }
            i = i + 1;
        }
        self.entries.push(
            RuntimeExportsEntry { share_key: copy_name(key), runtime: copy_name(rt), exports: Vec::new() },
        );
        i
    }

    /// Adds `names` to the bucket for `key` in `rt`, creating the bucket if absent.
    pub fn add_exports(&mut self, key: &String, rt: &String, names: &Vec<String>)
        requires
            old(self).wf(),
            name_set(old(self).share_keys@).contains(key@),
        ensures
            final(self).wf(),
            final(self).share_keys == old(self).share_keys,
            final(self).runtime_specs == old(self).runtime_specs,
            final(self).share_key_to_modules == old(self).share_key_to_modules,
            forall|k: Seq<char>, r: Seq<char>| #[trigger]
                final(self).has_bucket(k, r) == (old(self).has_bucket(k, r) || (k == key@ && r
                    == rt@)),
            forall|k: Seq<char>, r: Seq<char>| #[trigger]
                final(self).used(k, r) == if k == key@ && r == rt@ {
                    old(self).used(k, r).union(name_set(names@))
                } else {
                    old(self).used(k, r)
                },
    {
        let ghost pre = self.entries@;
        let idx = self.runtime_entry_index(key, rt);
        let ghost mid = self.entries@;
        extend_names(&mut self.entries[idx].exports, names);
        proof {
            let post = self.entries@;
            assert(post.len() == mid.len());
            assert forall|j: int| 0 <= j < post.len() && j != idx implies (#[trigger] post[j]) == mid[j] by {}
            assert forall|k: Seq<char>, r: Seq<char>| #[trigger]
                self.has_bucket(k, r) == (old(self).has_bucket(k, r) || (k == key@ && r == rt@)) by {
                if old(self).has_bucket(k, r) {
                    let j = choose|j: int| 0 <= j < pre.len() && entry_is(#[trigger] pre[j], k, r);
                    assert(mid[j] == pre[j]);
                    assert(entry_is(post[j], k, r));
                }
                if self.has_bucket(k, r) {
                    let j = choose|j: int| 0 <= j < post.len() && entry_is(#[trigger] post[j], k, r);
                    if j != idx && j < pre.len() {
                        assert(mid[j] == pre[j]);
                    }
                }
            }
            assert forall|k: Seq<char>, r: Seq<char>| #[trigger] self.used(k, r) == if k == key@ && r == rt@ {
                old(self).used(k, r).union(name_set(names@))
            } else {
                old(self).used(k, r)
            } by {
                let target = if k == key@ && r == rt@ {
                    old(self).used(k, r).union(name_set(names@))
                } else {
                    old(self).used(k, r)
                };
                assert forall|x: Seq<char>| #[trigger] self.used(k, r).contains(x) implies target.contains(x) by {
                    let j = choose|j: int|
                        0 <= j < post.len() && entry_is(#[trigger] post[j], k, r) && name_set(post[j].exports@).contains(x);
                    if j != idx {
                        assert(mid[j] == pre[j]);
                    } else if !name_set(names@).contains(x) {
                        if j < pre.len() {
                            assert(mid[j] == pre[j]);
                        }
                    }
                }
                assert forall|x: Seq<char>| #[trigger] target.contains(x) implies self.used(k, r).contains(x) by {
                    if old(self).used(k, r).contains(x) {
                        let j = choose|j: int|
                            0 <= j < pre.len() && entry_is(#[trigger] pre[j], k, r) && name_set(pre[j].exports@).contains(x);
                        assert(mid[j] == pre[j]);
                        if j != idx {
                            assert(post[j] == mid[j]);
                        } else {
                            assert(name_set(post[j].exports@).contains(x));
                        }
                    } else {
                        assert(entry_is(post[idx as int], k, r));
                        assert(name_set(post[idx as int].exports@).contains(x));
                    }
                }
                assert(self.used(k, r) =~= target);
            }
        }
    }

    /// Empties every bucket of `key`, keeping the buckets themselves.
    pub fn clear_exports_for_share(&mut self, key: &String)
        requires
            old(self).wf(),
        ensures
            final(self).wf(),
            final(self).share_keys == old(self).share_keys,
            final(self).runtime_specs == old(self).runtime_specs,
            final(self).share_key_to_modules == old(self).share_key_to_modules,
            forall|k: Seq<char>, r: Seq<char>| #[trigger]
                final(self).has_bucket(k, r) == old(self).has_bucket(k, r),
            forall|k: Seq<char>, r: Seq<char>| #[trigger]
                final(self).used(k, r) == if k == key@ {
                    Set::<Seq<char>>::empty()
                } else {
                    old(self).used(k, r)
                },
            forall|k: Seq<char>| #[trigger]
                final(self).flat_used(k) == if k == key@ {
                    Set::<Seq<char>>::empty()
                } else {
                    old(self).flat_used(k)
                },
    {
        let mut i: usize = 0;
        while i < self.entries.len()
            invariant
                0 <= i <= self.entries.len(),
                self.entries.len() == old(self).entries.len(),
                self.share_keys == old(self).share_keys,
                self.runtime_specs == old(self).runtime_specs,
                self.share_key_to_modules == old(self).share_key_to_modules,
                forall|j: int|
                    0 <= j < self.entries.len() ==> (#[trigger] self.entries@[j]).share_key
                        == old(self).entries@[j].share_key && self.entries@[j].runtime
                        == old(self).entries@[j].runtime,
                forall|j: int|
                    0 <= j < i && (#[trigger] self.entries@[j]).share_key@ == key@
                        ==> self.entries@[j].exports@.len() == 0,
                forall|j: int|
                    0 <= j < self.entries.len() && (j >= i || (#[trigger] self.entries@[j]).share_key@
                        != key@) ==> self.entries@[j].exports == old(self).entries@[j].exports,
            decreases self.entries.len() - i,
        {
            if self.entries[i].share_key == *key {
                self.entries[i].exports.clear();
            }
            i = i + 1;
        }
        proof {
            let post = self.entries@;
            let pre = old(self).entries@;
            assert forall|k: Seq<char>, r: Seq<char>| #[trigger]
                self.has_bucket(k, r) == old(self).has_bucket(k, r) by {
                if old(self).has_bucket(k, r) {
                    let j = choose|j: int| 0 <= j < pre.len() && entry_is(#[trigger] pre[j], k, r);
                    assert(entry_is(post[j], k, r));
                }
                if self.has_bucket(k, r) {
                    let j = choose|j: int| 0 <= j < post.len() && entry_is(#[trigger] post[j], k, r);
                    assert(entry_is(pre[j], k, r));
                }
            }
            assert forall|k: Seq<char>, r: Seq<char>| #[trigger]
                self.used(k, r) == if k == key@ {
                    Set::<Seq<char>>::empty()
                } else {
                    old(self).used(k, r)
                } by {
                if k == key@ {
                    assert forall|x: Seq<char>| !self.used(k, r).contains(x) by {
                        if self.used(k, r).contains(x) {
                            let j = choose|j: int|
                                0 <= j < post.len() && entry_is(#[trigger] post[j], k, r)
                                    && name_set(post[j].exports@).contains(x);
                            let m = choose|m: int| 0 <= m < post[j].exports@.len() && (#[trigger] post[j].exports@[m])@ == x;
                        }
                    }
                    assert(self.used(k, r) =~= Set::<Seq<char>>::empty());
                } else {
                    assert forall|x: Seq<char>| self.used(k, r).contains(x) == old(self).used(k, r).contains(x) by {
                        if self.used(k, r).contains(x) {
                            let j = choose|j: int|
                                0 <= j < post.len() && entry_is(#[trigger] post[j], k, r)
                                    && name_set(post[j].exports@).contains(x);
                            assert(entry_is(pre[j], k, r));
                        }
                        if old(self).used(k, r).contains(x) {
                            let j = choose|j: int|
                                0 <= j < pre.len() && entry_is(#[trigger] pre[j], k, r)
                                    && name_set(pre[j].exports@).contains(x);
                            assert(entry_is(post[j], k, r));
                        }
                    }
                    assert(self.used(k, r) =~= old(self).used(k, r));
                }
            }
            assert forall|a: int, b: int|
                0 <= a < post.len() && 0 <= b < post.len() && a != b
                    && (#[trigger] post[a]).share_key@ == (#[trigger] post[b]).share_key@
                    implies post[a].runtime@ != post[b].runtime@ by {
                assert(pre[a].share_key@ == pre[b].share_key@);
            }
            assert forall|k: Seq<char>| #[trigger]
                self.flat_used(k) == if k == key@ {
                    Set::<Seq<char>>::empty()
                } else {
                    old(self).flat_used(k)
                } by {
                if k == key@ {
                    assert forall|x: Seq<char>| !self.flat_used(k).contains(x) by {
                        if self.flat_used(k).contains(x) {
                            let j = choose|j: int|
                                0 <= j < post.len() && (#[trigger] post[j]).share_key@ == k
                                    && name_set(post[j].exports@).contains(x);
                            let m = choose|m: int| 0 <= m < post[j].exports@.len() && (#[trigger] post[j].exports@[m])@ == x;
                        }
                    }
                    assert(self.flat_used(k) =~= Set::<Seq<char>>::empty());
                } else {
                    assert forall|x: Seq<char>| self.flat_used(k).contains(x) == old(self).flat_used(k).contains(x) by {
                        if self.flat_used(k).contains(x) {
                            let j = choose|j: int|
                                0 <= j < post.len() && (#[trigger] post[j]).share_key@ == k
                                    && name_set(post[j].exports@).contains(x);
                            assert(pre[j].share_key@ == k);
                        }
                        if old(self).flat_used(k).contains(x) {
                            let j = choose|j: int|
                                0 <= j < pre.len() && (#[trigger] pre[j]).share_key@ == k
                                    && name_set(pre[j].exports@).contains(x);
                            assert(post[j].share_key@ == k);
                        }
                    }
                    assert(self.flat_used(k) =~= old(self).flat_used(k));
                }
            }
            assert forall|a: int| 0 <= a < post.len() implies name_set(self.share_keys@).contains(
                (#[trigger] post[a]).share_key@,
            ) by {
                assert(name_set(old(self).share_keys@).contains(pre[a].share_key@));
            }
        }
    }

    /// The names recorded for `key` in the first `n` buckets.
    pub open spec fn flat_used_upto(&self, key: Seq<char>, n: int) -> Set<Seq<char>> {
        Set::new(
            |x: Seq<char>|
                exists|i: int|
                    0 <= i < n && (#[trigger] self.entries@[i]).share_key@ == key && name_set(
                        self.entries@[i].exports@,
                    ).contains(x),
        )
    }

    /// Every export name used under `key`, in any runtime, sorted and each once.
    pub fn flat_exports_for(&self, key: &String) -> (r: Vec<String>)
        ensures
            is_sorted_listing(r@, self.flat_used(key@)),
    {
        let mut acc: Vec<String> = Vec::new();
        let mut i: usize = 0;
        assert(name_set(acc@) =~= self.flat_used_upto(key@, 0));
        while i < self.entries.len()
            invariant
                0 <= i <= self.entries.len(),
                is_sorted_listing(acc@, self.flat_used_upto(key@, i as int)),
            decreases self.entries.len() - i,
        {
            if self.entries[i].share_key == *key {
                merge_sorted(&mut acc, &self.entries[i].exports);
            }
            assert(name_set(acc@) =~= self.flat_used_upto(key@, i + 1)) by {
                assert forall|x: Seq<char>| #[trigger] self.flat_used_upto(key@, i + 1).contains(x)
                    implies name_set(acc@).contains(x) by {
                    let j = choose|j: int|
                        0 <= j < i + 1 && (#[trigger] self.entries@[j]).share_key@ == key@ && name_set(
                            self.entries@[j].exports@,
                        ).contains(x);
                    if j < i {
                        assert(self.flat_used_upto(key@, i as int).contains(x));
                    }
                }
            }
            i = i + 1;
        }
        assert(self.flat_used_upto(key@, self.entries.len() as int) =~= self.flat_used(key@));
        acc
    }

    /// Per share key, every export name used in any runtime, sorted; keys with no
    /// name are left out.
    pub fn build_flat_used_exports(&self) -> (r: Vec<FlatUsedExports>)
        requires
            self.wf(),
        ensures
            forall|i: int|
                0 <= i < r.len() ==> name_set(self.share_keys@).contains(
                    (#[trigger] r@[i]).share_key@,
                ) && is_sorted_listing(r@[i].exports@, self.flat_used(r@[i].share_key@))
                    && r@[i].exports.len() > 0,
            forall|k: Seq<char>|
                name_set(self.share_keys@).contains(k) && #[trigger] self.flat_used(k)
                    != Set::<Seq<char>>::empty() ==> exists|i: int|
                    0 <= i < r.len() && (#[trigger] r@[i]).share_key@ == k,
            forall|i: int, j: int|
                0 <= i < r.len() && 0 <= j < r.len() && i != j ==> (#[trigger] r@[i]).share_key@
                    != (#[trigger] r@[j]).share_key@,
    {
        let mut r: Vec<FlatUsedExports> = Vec::new();
        let mut n: usize = 0;
        while n < self.share_keys.len()
            invariant
                0 <= n <= self.share_keys.len(),
                self.wf(),
                forall|i: int|
                    0 <= i < r.len() ==> exists|m: int|
                        0 <= m < n && (#[trigger] r@[i]).share_key@ == (
                        #[trigger] self.share_keys@[m])@,
                forall|i: int|
                    0 <= i < r.len() ==> is_sorted_listing(
                        (#[trigger] r@[i]).exports@,
                        self.flat_used(r@[i].share_key@),
                    ) && r@[i].exports.len() > 0,
                forall|m: int|
                    0 <= m < n && #[trigger] self.flat_used(self.share_keys@[m]@)
                        != Set::<Seq<char>>::empty() ==> exists|i: int|
                        0 <= i < r.len() && (#[trigger] r@[i]).share_key@ == self.share_keys@[m]@,
                forall|i: int, j: int|
                    0 <= i < r.len() && 0 <= j < r.len() && i != j ==> (#[trigger] r@[i]).share_key@
                        != (#[trigger] r@[j]).share_key@,
            decreases self.share_keys.len() - n,
        {
            let key = &self.share_keys[n];
            let exports = self.flat_exports_for(key);
            if exports.len() > 0 {
                let ghost old_r = r@;
                r.push(FlatUsedExports { share_key: copy_name(key), exports });
                proof {
                    assert forall|i: int| 0 <= i < old_r.len() implies (#[trigger] old_r[i]).share_key@
                        != key@ by {
                        let m = choose|m: int|
                            0 <= m < n && (#[trigger] old_r[i]).share_key@ == (
                            #[trigger] self.share_keys@[m])@;
                        assert(r@[i] == old_r[i]);
                    }
                    assert forall|i: int| 0 <= i < r.len() implies exists|m: int|
                        0 <= m < n + 1 && (#[trigger] r@[i]).share_key@ == (
                        #[trigger] self.share_keys@[m])@ by {
                        if i < old_r.len() {
                            assert(r@[i] == old_r[i]);
                            let m = choose|m: int|
                                0 <= m < n && (#[trigger] old_r[i]).share_key@ == (
                                #[trigger] self.share_keys@[m])@;
                        } else {
                            assert(r@[i].share_key@ == self.share_keys@[n as int]@);
                        }
                    }
                    assert forall|m: int|
                        0 <= m < n + 1 && #[trigger] self.flat_used(self.share_keys@[m]@)
                            != Set::<Seq<char>>::empty() implies exists|i: int|
                            0 <= i < r.len() && (#[trigger] r@[i]).share_key@ == self.share_keys@[m]@ by {
                        if m < n {
                            let i = choose|i: int|
                                0 <= i < old_r.len() && (#[trigger] old_r[i]).share_key@ == self.share_keys@[m]@;
                            assert(r@[i] == old_r[i]);
                        } else {
                            assert(r@[old_r.len() as int].share_key@ == self.share_keys@[m]@);
                        }
                    }
                }
            } else {
                proof {
                    assert(name_set(exports@) =~= Set::<Seq<char>>::empty());
                    assert forall|i: int| 0 <= i < r.len() implies exists|m: int|
                        0 <= m < n + 1 && (#[trigger] r@[i]).share_key@ == (
                        #[trigger] self.share_keys@[m])@ by {
                        let m = choose|m: int|
                            0 <= m < n && (#[trigger] r@[i]).share_key@ == (
                            #[trigger] self.share_keys@[m])@;
                    }
                }
            }
            n = n + 1;
        }
        proof {
            assert forall|i: int| 0 <= i < r.len() implies name_set(self.share_keys@).contains(
                (#[trigger] r@[i]).share_key@,
            ) by {
                let m = choose|m: int|
                    0 <= m < n && (#[trigger] r@[i]).share_key@ == (#[trigger] self.share_keys@[m])@;
            }
            assert forall|k: Seq<char>|
                name_set(self.share_keys@).contains(k) && #[trigger] self.flat_used(k)
                    != Set::<Seq<char>>::empty() implies exists|i: int|
                    0 <= i < r.len() && (#[trigger] r@[i]).share_key@ == k by {
                let m = choose|m: int| 0 <= m < self.share_keys@.len() && (#[trigger] self.share_keys@[m])@ == k;
                assert(self.flat_used(self.share_keys@[m]@) != Set::<Seq<char>>::empty());
            }
        }
        r
    }

    /// Where the state is well formed, the names of a bucket are those of its
    /// share key and runtime.
    pub proof fn lemma_used_at(&self, i: int)
        requires
            self.wf(),
            0 <= i < self.entries.len(),
        ensures
            self.used(self.entries@[i].share_key@, self.entries@[i].runtime@) == name_set(
                self.entries@[i].exports@,
            ),
            self.has_bucket(self.entries@[i].share_key@, self.entries@[i].runtime@),
    {
        let k = self.entries@[i].share_key@;
        let r = self.entries@[i].runtime@;
        assert forall|x: Seq<char>| #[trigger] self.used(k, r).contains(x) implies name_set(
            self.entries@[i].exports@,
        ).contains(x) by {
            let j = choose|j: int|
                0 <= j < self.entries.len() && entry_is(#[trigger] self.entries@[j], k, r)
                    && name_set(self.entries@[j].exports@).contains(x);
            if j != i {
                assert(self.entries@[i].share_key@ == self.entries@[j].share_key@);
            }
        }
        assert(entry_is(self.entries@[i], k, r));
        assert(self.used(k, r) =~= name_set(self.entries@[i].exports@));
    }

    /// For `key`, each runtime whose bucket holds a name, with those names sorted.
    pub fn runtime_lists_for(&self, key: &String) -> (r: Vec<RuntimeExportList>)
        requires
            self.wf(),
        ensures
            forall|j: int|
                0 <= j < r.len() ==> self.has_bucket(key@, (#[trigger] r@[j]).runtime@)
                    && is_sorted_listing(r@[j].exports@, self.used(key@, r@[j].runtime@))
                    && r@[j].exports.len() > 0,
            forall|rt: Seq<char>|
                #[trigger] self.used(key@, rt) != Set::<Seq<char>>::empty() ==> exists|j: int|
                    0 <= j < r.len() && (#[trigger] r@[j]).runtime@ == rt,
            forall|a: int, b: int|
                0 <= a < r.len() && 0 <= b < r.len() && a != b ==> (#[trigger] r@[a]).runtime@
                    != (#[trigger] r@[b]).runtime@,
    {
        let mut r: Vec<RuntimeExportList> = Vec::new();
        let mut i: usize = 0;
        while i < self.entries.len()
            invariant
                0 <= i <= self.entries.len(),
                self.wf(),
                forall|j: int|
                    0 <= j < r.len() ==> exists|m: int|
                        0 <= m < i && entry_is(#[trigger] self.entries@[m], key@, (#[trigger] r@[j]).runtime@),
                forall|j: int|
                    0 <= j < r.len() ==> self.has_bucket(key@, (#[trigger] r@[j]).runtime@)
                        && is_sorted_listing(r@[j].exports@, self.used(key@, r@[j].runtime@))
                        && r@[j].exports.len() > 0,
                forall|m: int|
                    0 <= m < i && (#[trigger] self.entries@[m]).share_key@ == key@
                        && self.entries@[m].exports.len() > 0 ==> exists|j: int|
                        0 <= j < r.len() && (#[trigger] r@[j]).runtime@ == self.entries@[m].runtime@,
                forall|a: int, b: int|
                    0 <= a < r.len() && 0 <= b < r.len() && a != b ==> (#[trigger] r@[a]).runtime@
                        != (#[trigger] r@[b]).runtime@,
            decreases self.entries.len() - i,
        {
            let entry = &self.entries[i];
            if entry.share_key == *key && entry.exports.len() > 0 {
                let exports = sorted_listing(&entry.exports);
                proof {
                    self.lemma_used_at(i as int);
                    assert(exports@.len() > 0) by {
                        assert(name_set(entry.exports@).contains(entry.exports@[0]@));
                        if exports@.len() == 0 {
                            assert(name_set(exports@) =~= Set::<Seq<char>>::empty());
                        }
                    }
                }
                let ghost old_r = r@;
                r.push(RuntimeExportList { runtime: copy_name(&entry.runtime), exports });
                proof {
                    assert forall|j: int| 0 <= j < old_r.len() implies (#[trigger] old_r[j]).runtime@
                        != entry.runtime@ by {
                        let m = choose|m: int|
                            0 <= m < i && entry_is(#[trigger] self.entries@[m], key@, (#[trigger] old_r[j]).runtime@);
                        assert(r@[j] == old_r[j]);
                    }
                    assert forall|j: int| 0 <= j < r.len() implies exists|m: int|
                        0 <= m < i + 1 && entry_is(#[trigger] self.entries@[m], key@, (#[trigger] r@[j]).runtime@) by {
                        if j < old_r.len() {
                            assert(r@[j] == old_r[j]);
                            let m = choose|m: int|
                                0 <= m < i && entry_is(#[trigger] self.entries@[m], key@, (#[trigger] old_r[j]).runtime@);
                        } else {
                            assert(entry_is(self.entries@[i as int], key@, r@[j].runtime@));
                        }
                    }
                    assert forall|m: int|
                        0 <= m < i + 1 && (#[trigger] self.entries@[m]).share_key@ == key@
                            && self.entries@[m].exports.len() > 0 implies exists|j: int|
                            0 <= j < r.len() && (#[trigger] r@[j]).runtime@ == self.entries@[m].runtime@ by {
                        if m < i {
                            let j = choose|j: int| 0 <= j < old_r.len() && (#[trigger] old_r[j]).runtime@ == self.entries@[m].runtime@;
                            assert(r@[j] == old_r[j]);
                        } else {
                            assert(r@[old_r.len() as int].runtime@ == self.entries@[m].runtime@);
                        }
                    }
                }
            } else {
                proof {
                    assert forall|j: int| 0 <= j < r.len() implies exists|m: int|
                        0 <= m < i + 1 && entry_is(#[trigger] self.entries@[m], key@, (#[trigger] r@[j]).runtime@) by {
                        let m = choose|m: int|
                            0 <= m < i && entry_is(#[trigger] self.entries@[m], key@, (#[trigger] r@[j]).runtime@);
                    }
                }
            }
            i = i + 1;
        }
        proof {
            assert forall|rt: Seq<char>|
                #[trigger] self.used(key@, rt) != Set::<Seq<char>>::empty() implies exists|j: int|
                    0 <= j < r.len() && (#[trigger] r@[j]).runtime@ == rt by {
                if forall|x: Seq<char>| !self.used(key@, rt).contains(x) {
                    assert(self.used(key@, rt) =~= Set::<Seq<char>>::empty());
                }
                let x = choose|x: Seq<char>| self.used(key@, rt).contains(x);
                let m = choose|m: int|
                    0 <= m < self.entries.len() && entry_is(#[trigger] self.entries@[m], key@, rt)
                        && name_set(self.entries@[m].exports@).contains(x);
                assert(self.entries@[m].exports.len() > 0);
            }
        }
        r
    }

    /// Per share key, per runtime, the export names used, sorted; runtimes with no name
    /// and share keys with no runtime left are left out.
    pub fn build_runtime_used_exports_map(&self) -> (r: Vec<RuntimeUsedExports>)
        requires
            self.wf(),
        ensures
            forall|i: int|
                0 <= i < r.len() ==> name_set(self.share_keys@).contains(
                    (#[trigger] r@[i]).share_key@,
                ) && r@[i].runtimes.len() > 0,
            forall|i: int, j: int|
                0 <= i < r.len() && 0 <= j < r@[i].runtimes.len() ==> self.has_bucket(
                    r@[i].share_key@,
                    (#[trigger] r@[i].runtimes@[j]).runtime@,
                ) && is_sorted_listing(
                    r@[i].runtimes@[j].exports@,
                    self.used(r@[i].share_key@, r@[i].runtimes@[j].runtime@),
                ) && r@[i].runtimes@[j].exports.len() > 0,
            forall|k: Seq<char>, rt: Seq<char>|
                name_set(self.share_keys@).contains(k) && #[trigger] self.used(k, rt)
                    != Set::<Seq<char>>::empty() ==> exists|i: int, j: int|
                    0 <= i < r.len() && 0 <= j < r@[i].runtimes.len() && (#[trigger] r@[i]).share_key@ == k
                        && (#[trigger] r@[i].runtimes@[j]).runtime@ == rt,
            forall|i: int, j: int|
                0 <= i < r.len() && 0 <= j < r.len() && i != j ==> (#[trigger] r@[i]).share_key@
                    != (#[trigger] r@[j]).share_key@,
            forall|i: int, a: int, b: int|
                0 <= i < r.len() && 0 <= a < r@[i].runtimes.len() && 0 <= b < r@[i].runtimes.len()
                    && a != b ==> (#[trigger] r@[i].runtimes@[a]).runtime@ != (
                #[trigger] r@[i].runtimes@[b]).runtime@,
    {
        let mut r: Vec<RuntimeUsedExports> = Vec::new();
        let mut n: usize = 0;
        while n < self.share_keys.len()
            invariant
                0 <= n <= self.share_keys.len(),
                self.wf(),
                forall|i: int|
                    0 <= i < r.len() ==> exists|m: int|
                        0 <= m < n && (#[trigger] r@[i]).share_key@ == (
                        #[trigger] self.share_keys@[m])@,
                forall|i: int| 0 <= i < r.len() ==> (#[trigger] r@[i]).runtimes.len() > 0,
                forall|i: int, j: int|
                    0 <= i < r.len() && 0 <= j < r@[i].runtimes.len() ==> self.has_bucket(
                        r@[i].share_key@,
                        (#[trigger] r@[i].runtimes@[j]).runtime@,
                    ) && is_sorted_listing(
                        r@[i].runtimes@[j].exports@,
                        self.used(r@[i].share_key@, r@[i].runtimes@[j].runtime@),
                    ) && r@[i].runtimes@[j].exports.len() > 0,
                forall|m: int, rt: Seq<char>|
                    0 <= m < n && #[trigger] self.used(self.share_keys@[m]@, rt)
                        != Set::<Seq<char>>::empty() ==> exists|i: int, j: int|
                        0 <= i < r.len() && 0 <= j < r@[i].runtimes.len() && (#[trigger] r@[i]).share_key@
                            == self.share_keys@[m]@ && (#[trigger] r@[i].runtimes@[j]).runtime@ == rt,
                forall|i: int, j: int|
                    0 <= i < r.len() && 0 <= j < r.len() && i != j ==> (#[trigger] r@[i]).share_key@
                        != (#[trigger] r@[j]).share_key@,
                forall|i: int, a: int, b: int|
                    0 <= i < r.len() && 0 <= a < r@[i].runtimes.len() && 0 <= b < r@[i].runtimes.len()
                        && a != b ==> (#[trigger] r@[i].runtimes@[a]).runtime@ != (
                    #[trigger] r@[i].runtimes@[b]).runtime@,
            decreases self.share_keys.len() - n,
        {
            let key = &self.share_keys[n];
            let runtimes = self.runtime_lists_for(key);
            if runtimes.len() > 0 {
                let ghost old_r = r@;
                r.push(RuntimeUsedExports { share_key: copy_name(key), runtimes });
                proof {
                    assert forall|i: int| 0 <= i < old_r.len() implies (#[trigger] old_r[i]).share_key@
                        != key@ by {
                        let m = choose|m: int|
                            0 <= m < n && (#[trigger] old_r[i]).share_key@ == (
                            #[trigger] self.share_keys@[m])@;
                        assert(r@[i] == old_r[i]);
                    }
                    assert forall|i: int| 0 <= i < r.len() implies exists|m: int|
                        0 <= m < n + 1 && (#[trigger] r@[i]).share_key@ == (
                        #[trigger] self.share_keys@[m])@ by {
                        if i < old_r.len() {
                            assert(r@[i] == old_r[i]);
                            let m = choose|m: int|
                                0 <= m < n && (#[trigger] old_r[i]).share_key@ == (
                                #[trigger] self.share_keys@[m])@;
                        } else {
                            assert(r@[i].share_key@ == self.share_keys@[n as int]@);
                        }
                    }
                    assert forall|i: int| 0 <= i < r.len() implies (#[trigger] r@[i]).runtimes.len() > 0 by {
                        if i < old_r.len() {
                            assert(r@[i] == old_r[i]);
                        }
                    }
                    assert forall|i: int, j: int|
                        0 <= i < r.len() && 0 <= j < r@[i].runtimes.len() implies self.has_bucket(
                            r@[i].share_key@,
                            (#[trigger] r@[i].runtimes@[j]).runtime@,
                        ) && is_sorted_listing(
                            r@[i].runtimes@[j].exports@,
                            self.used(r@[i].share_key@, r@[i].runtimes@[j].runtime@),
                        ) && r@[i].runtimes@[j].exports.len() > 0 by {
                        if i < old_r.len() {
                            assert(r@[i] == old_r[i]);
                            assert(self.has_bucket(old_r[i].share_key@, old_r[i].runtimes@[j].runtime@));
                        }
                    }
                    assert forall|m: int, rt: Seq<char>|
                        0 <= m < n + 1 && #[trigger] self.used(self.share_keys@[m]@, rt)
                            != Set::<Seq<char>>::empty() implies exists|i: int, j: int|
                            0 <= i < r.len() && 0 <= j < r@[i].runtimes.len() && (#[trigger] r@[i]).share_key@
                                == self.share_keys@[m]@ && (#[trigger] r@[i].runtimes@[j]).runtime@ == rt by {
                        if m < n {
                            let (i, j) = choose|i: int, j: int|
                                0 <= i < old_r.len() && 0 <= j < old_r[i].runtimes.len() && (#[trigger] old_r[i]).share_key@
                                    == self.share_keys@[m]@ && (#[trigger] old_r[i].runtimes@[j]).runtime@ == rt;
                            assert(r@[i] == old_r[i]);
                        } else {
                            let j = choose|j: int| 0 <= j < runtimes.len() && (#[trigger] runtimes@[j]).runtime@ == rt;
                            assert(r@[old_r.len() as int].runtimes@[j].runtime@ == rt);
                        }
                    }
                    assert forall|i: int, a: int, b: int|
                        0 <= i < r.len() && 0 <= a < r@[i].runtimes.len() && 0 <= b < r@[i].runtimes.len()
                            && a != b implies (#[trigger] r@[i].runtimes@[a]).runtime@ != (
                        #[trigger] r@[i].runtimes@[b]).runtime@ by {
                        if i < old_r.len() {
                            assert(r@[i] == old_r[i]);
                            assert(old_r[i].runtimes@[a].runtime@ != old_r[i].runtimes@[b].runtime@);
                        }
                    }
                }
            } else {
                proof {
                    assert forall|i: int| 0 <= i < r.len() implies exists|m: int|
                        0 <= m < n + 1 && (#[trigger] r@[i]).share_key@ == (
                        #[trigger] self.share_keys@[m])@ by {
                        let m = choose|m: int|
                            0 <= m < n && (#[trigger] r@[i]).share_key@ == (
                            #[trigger] self.share_keys@[m])@;
                    }
                    assert forall|m: int, rt: Seq<char>|
                        0 <= m < n + 1 && #[trigger] self.used(self.share_keys@[m]@, rt)
                            != Set::<Seq<char>>::empty() implies exists|i: int, j: int|
                            0 <= i < r.len() && 0 <= j < r@[i].runtimes.len() && (#[trigger] r@[i]).share_key@
                                == self.share_keys@[m]@ && (#[trigger] r@[i].runtimes@[j]).runtime@ == rt by {
                        if m == n {
                            let j = choose|j: int| 0 <= j < runtimes.len() && (#[trigger] runtimes@[j]).runtime@ == rt;
                        }
                    }
                }
            }
            n = n + 1;
        }
        proof {
            assert forall|i: int| 0 <= i < r.len() implies name_set(self.share_keys@).contains(
                (#[trigger] r@[i]).share_key@,
            ) by {
                let m = choose|m: int|
                    0 <= m < n && (#[trigger] r@[i]).share_key@ == (#[trigger] self.share_keys@[m])@;
            }
            assert forall|k: Seq<char>, rt: Seq<char>|
                name_set(self.share_keys@).contains(k) && #[trigger] self.used(k, rt)
                    != Set::<Seq<char>>::empty() implies exists|i: int, j: int|
                    0 <= i < r.len() && 0 <= j < r@[i].runtimes.len() && (#[trigger] r@[i]).share_key@ == k
                        && (#[trigger] r@[i].runtimes@[j]).runtime@ == rt by {
                let m = choose|m: int| 0 <= m < self.share_keys@.len() && (#[trigger] self.share_keys@[m])@ == k;
                assert(self.used(self.share_keys@[m]@, rt) != Set::<Seq<char>>::empty());
            }
        }
        r
    }

    /// Records that `rt` has been observed in this pass.
    pub fn register_runtime(&mut self, rt: &String)
        requires
            old(self).wf(),
        ensures
            final(self).wf(),
            final(self).share_keys == old(self).share_keys,
            final(self).entries == old(self).entries,
            final(self).share_key_to_modules == old(self).share_key_to_modules,
            forall|r: Seq<char>| #[trigger] final(self).registered(r) == (old(self).registered(r) || r == rt@),
    {
        insert_name(&mut self.runtime_specs, rt);
    }

    /// The names of `key` in any runtime are those of its buckets in some runtime.
    pub proof fn lemma_flat_used(&self, key: Seq<char>)
        ensures
            forall|x: Seq<char>| #[trigger] self.flat_used(key).contains(x) == exists|r: Seq<char>| #[trigger] self.used(key, r).contains(x),
    {
        assert forall|x: Seq<char>| #[trigger] self.flat_used(key).contains(x) == exists|r: Seq<char>| #[trigger] self.used(key, r).contains(x) by {
            if self.flat_used(key).contains(x) {
                let i = choose|i: int|
                    0 <= i < self.entries.len() && (#[trigger] self.entries@[i]).share_key@ == key
                        && name_set(self.entries@[i].exports@).contains(x);
                assert(entry_is(self.entries@[i], key, self.entries@[i].runtime@));
                assert(self.used(key, self.entries@[i].runtime@).contains(x));
            }
            if exists|r: Seq<char>| #[trigger] self.used(key, r).contains(x) {
                let r = choose|r: Seq<char>| #[trigger] self.used(key, r).contains(x);
                let i = choose|i: int|
                    0 <= i < self.entries.len() && entry_is(#[trigger] self.entries@[i], key, r)
                        && name_set(self.entries@[i].exports@).contains(x);
                assert(self.flat_used(key).contains(x));
            }
        }
    }
}

} // verus!
