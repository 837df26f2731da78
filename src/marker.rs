//! Mapping the recorded usage onto the usage lattice of a fallback module, with the
//! gate that decides when the remaining exports may be marked unused.
use vstd::prelude::*;
use crate::lattice::{get_usage, set_usage, usage_at, usage_wf, ExportsInfo, UsageState};
use crate::names::{contains_name, copy_name, name_set};
use crate::graph::{Module, ModuleGraph};
use crate::state::{entry_is, OptimizeCompilationState, ProvidePair};

verus! {

/// The state of `x` in `rt` once every name of `u`, the names observed in `rt`, is
/// marked used.
pub open spec fn after_used_by(old: ExportsInfo, u: Set<Seq<char>>, x: Seq<char>, rt: Seq<char>) -> UsageState {
    if u.contains(x) {
        UsageState::Used
    } else {
        old.state_of(x, rt)
    }
}

/// Marking unused is safe in `rt` when some name was observed there, and every export with an entry
/// whose state in `rt` is already settled is among the observed names.
pub open spec fn gate_passes(info: ExportsInfo, names: Set<Seq<char>>, rt: Seq<char>) -> bool {
    &&& names != Set::<Seq<char>>::empty()
    &&& forall|x: Seq<char>|
        info.is_named(x) && #[trigger] info.state_of(x, rt) != UsageState::Unknown ==> names.contains(x)
}

/// The state of `x` in `rt` after marking `old` from the names `u` observed in `rt`,
/// where `flat` holds the names observed in any runtime.
pub open spec fn marked_state_by(
    old: ExportsInfo,
    u: Set<Seq<char>>,
    flat: Set<Seq<char>>,
    x: Seq<char>,
    rt: Seq<char>,
) -> UsageState {
    let m = after_used_by(old, u, x, rt);
    if gate_passes(old, u, rt) && m == UsageState::Unknown && (old.is_named(x) || flat.contains(x)) {
        UsageState::Unused
    } else {
        m
    }
}

/// The catch-all state in `rt` after marking `old` from the names `u` observed there.
pub open spec fn marked_other_by(old: ExportsInfo, u: Set<Seq<char>>, rt: Seq<char>) -> UsageState {
    if gate_passes(old, u, rt) && old.other_at(rt) == UsageState::Unknown {
        UsageState::Unused
    } else {
        old.other_at(rt)
    }
}

/// `new` is `old` marked from `used`, the names observed per runtime, where `flat`
/// holds the names observed in any runtime.
pub open spec fn is_marked_by(
    old: ExportsInfo,
    new: ExportsInfo,
    used: spec_fn(Seq<char>) -> Set<Seq<char>>,
    flat: Set<Seq<char>>,
) -> bool {
    &&& new.wf()
    &&& forall|x: Seq<char>| #[trigger] new.is_named(x) == (old.is_named(x) || flat.contains(x))
    &&& forall|x: Seq<char>, rt: Seq<char>| #[trigger] new.state_of(x, rt) == marked_state_by(old, used(rt), flat, x, rt)
    &&& forall|rt: Seq<char>| #[trigger] new.other_at(rt) == marked_other_by(old, used(rt), rt)
}

/// The state of `x` in `rt` once every name of the buckets of `key` is marked used.
pub open spec fn after_used(
    old: ExportsInfo,
    st: OptimizeCompilationState,
    key: Seq<char>,
    x: Seq<char>,
    rt: Seq<char>,
) -> UsageState {
    after_used_by(old, st.used(key, rt), x, rt)
}

/// The state of `x` in `rt` after the fallback lattice `old` is marked for `key`.
pub open spec fn marked_state(
    old: ExportsInfo,
    st: OptimizeCompilationState,
    key: Seq<char>,
    x: Seq<char>,
    rt: Seq<char>,
) -> UsageState {
    marked_state_by(old, st.used(key, rt), st.flat_used(key), x, rt)
}

/// The catch-all state in `rt` after the fallback lattice `old` is marked for `key`.
pub open spec fn marked_other(
    old: ExportsInfo,
    st: OptimizeCompilationState,
    key: Seq<char>,
    rt: Seq<char>,
) -> UsageState {
    marked_other_by(old, st.used(key, rt), rt)
}

/// `new` is `old` marked for `key` from the table of `st`.
pub open spec fn is_marked(
    old: ExportsInfo,
    new: ExportsInfo,
    st: OptimizeCompilationState,
    key: Seq<char>,
) -> bool {
    is_marked_by(old, new, |rt: Seq<char>| st.used(key, rt), st.flat_used(key))
}

/// The names of the first `b` buckets for `key` in `rt`.
pub open spec fn used_upto(st: OptimizeCompilationState, key: Seq<char>, b: int, rt: Seq<char>) -> Set<Seq<char>> {
    Set::new(
        |x: Seq<char>|
            exists|i: int|
                0 <= i < b && entry_is(#[trigger] st.entries@[i], key, rt) && name_set(st.entries@[i].exports@).contains(x),
    )
}

/// The names of the first `b` buckets for `key`, in any runtime.
pub open spec fn flat_upto(st: OptimizeCompilationState, key: Seq<char>, b: int) -> Set<Seq<char>> {
    Set::new(
        |x: Seq<char>|
            exists|i: int|
                0 <= i < b && (#[trigger] st.entries@[i]).share_key@ == key && name_set(st.entries@[i].exports@).contains(x),
    )
}

/// Marks every name of every bucket of `key` used in the bucket's runtime.
pub fn mark_used(info: &mut ExportsInfo, st: &OptimizeCompilationState, key: &String)
    requires
        old(info).wf(),
    ensures
        final(info).wf(),
        final(info).other_exports == old(info).other_exports,
        forall|x: Seq<char>| #[trigger] final(info).is_named(x) == (old(info).is_named(x) || st.flat_used(key@).contains(x)),
        forall|x: Seq<char>, rt: Seq<char>| #[trigger] final(info).state_of(x, rt) == after_used(*old(info), *st, key@, x, rt),
{
    let ghost pre = *info;
    let mut b: usize = 0;
    while b < st.entries.len()
        invariant
            0 <= b <= st.entries.len(),
            pre == *old(info),
            info.wf(),
            info.other_exports == pre.other_exports,
            forall|x: Seq<char>| #[trigger] info.is_named(x) == (pre.is_named(x) || flat_upto(*st, key@, b as int).contains(x)),
            forall|x: Seq<char>, rt: Seq<char>| #[trigger] info.state_of(x, rt) == if used_upto(*st, key@, b as int, rt).contains(x) {
                UsageState::Used
            } else {
                pre.state_of(x, rt)
            },
        decreases st.entries.len() - b,
    {
        let entry = &st.entries[b];
        if entry.share_key == *key {
            let mut j: usize = 0;
            while j < entry.exports.len()
                invariant
                    0 <= j <= entry.exports.len(),
                    0 <= b < st.entries.len(),
                    entry == &st.entries@[b as int],
                    entry.share_key@ == key@,
                    pre == *old(info),
                    info.wf(),
                    info.other_exports == pre.other_exports,
                    forall|x: Seq<char>| #[trigger] info.is_named(x) == (pre.is_named(x) || flat_upto(*st, key@, b as int).contains(x)
                        || name_set(entry.exports@.subrange(0, j as int)).contains(x)),
                    forall|x: Seq<char>, rt: Seq<char>| #[trigger] info.state_of(x, rt) == if used_upto(*st, key@, b as int, rt).contains(x)
                        || (rt == entry.runtime@ && name_set(entry.exports@.subrange(0, j as int)).contains(x)) {
                        UsageState::Used
                    } else {
                        pre.state_of(x, rt)
                    },
                decreases entry.exports.len() - j,
            {
                proof {
                    crate::names::lemma_name_set_prefix_step(entry.exports@, j as int);
                }
                info.set_used(&entry.exports[j], &entry.runtime, UsageState::Used);
                j = j + 1;
            }
            proof {
                assert(entry.exports@.subrange(0, entry.exports.len() as int) =~= entry.exports@);
            }
        }
        proof {
            assert forall|x: Seq<char>| #[trigger] flat_upto(*st, key@, b + 1).contains(x) == (flat_upto(*st, key@, b as int).contains(x)
                || (entry.share_key@ == key@ && name_set(entry.exports@).contains(x))) by {
                if flat_upto(*st, key@, b + 1).contains(x) && !flat_upto(*st, key@, b as int).contains(x) {
                    let i = choose|i: int| 0 <= i < b + 1 && (#[trigger] st.entries@[i]).share_key@ == key@ && name_set(st.entries@[i].exports@).contains(x);
                    assert(i == b);
                }
            }
            assert forall|x: Seq<char>, rt: Seq<char>| #[trigger] used_upto(*st, key@, b + 1, rt).contains(x) == (used_upto(*st, key@, b as int, rt).contains(x)
                || (entry_is(*entry, key@, rt) && name_set(entry.exports@).contains(x))) by {
                if used_upto(*st, key@, b + 1, rt).contains(x) && !used_upto(*st, key@, b as int, rt).contains(x) {
                    let i = choose|i: int| 0 <= i < b + 1 && entry_is(#[trigger] st.entries@[i], key@, rt) && name_set(st.entries@[i].exports@).contains(x);
                    assert(i == b);
                }
                if entry_is(*entry, key@, rt) && name_set(entry.exports@).contains(x) {
                    assert(entry_is(st.entries@[b as int], key@, rt));
                }
            }
            if entry.share_key@ != key@ {
                assert forall|x: Seq<char>, rt: Seq<char>| #[trigger] info.state_of(x, rt) == if used_upto(*st, key@, b + 1, rt).contains(x) {
                    UsageState::Used
                } else {
                    pre.state_of(x, rt)
                } by {
                    assert(used_upto(*st, key@, b + 1, rt).contains(x) == used_upto(*st, key@, b as int, rt).contains(x));
                }
            }
        }
        b = b + 1;
    }
    proof {
        assert forall|x: Seq<char>| #[trigger] flat_upto(*st, key@, st.entries.len() as int).contains(x) == st.flat_used(key@).contains(x) by {}
        assert forall|x: Seq<char>, rt: Seq<char>| #[trigger] used_upto(*st, key@, st.entries.len() as int, rt).contains(x) == st.used(key@, rt).contains(x) by {}
    }
}

/// Whether every export with an entry whose state in `rt` is settled is among `names`.
pub fn gate_holds(info: &ExportsInfo, names: &Vec<String>, rt: &String) -> (r: bool)
    requires
        info.wf(),
    ensures
        r == forall|x: Seq<char>|
            info.is_named(x) && #[trigger] info.state_of(x, rt@) != UsageState::Unknown ==> name_set(names@).contains(x),
{
    let mut i: usize = 0;
    while i < info.exports.len()
        invariant
            0 <= i <= info.exports.len(),
            info.wf(),
            forall|j: int| 0 <= j < i ==> #[trigger] info.state_of(info.exports@[j].name@, rt@) != UsageState::Unknown
                ==> name_set(names@).contains(info.exports@[j].name@),
        decreases info.exports.len() - i,
    {
        let e = &info.exports[i];
        proof {
            info.lemma_state_of(i as int);
        }
        if get_usage(&e.usage, rt) != UsageState::Unknown && !contains_name(names, &e.name) {
            assert(info.is_named(e.name@) && info.state_of(e.name@, rt@) != UsageState::Unknown && !name_set(names@).contains(e.name@));
            return false;
        }
        i = i + 1;
    }
    proof {
        assert forall|x: Seq<char>|
            info.is_named(x) && #[trigger] info.state_of(x, rt@) != UsageState::Unknown implies name_set(names@).contains(x) by {
            let j = choose|j: int| 0 <= j < info.exports.len() && (#[trigger] info.exports@[j]).name@ == x;
        }
    }
    true
}

/// Marks unused, in `rt`, every export with an entry whose state there is unknown, and
/// the catch-all entry where its state there is unknown.
pub fn mark_unused(info: &mut ExportsInfo, rt: &String)
    requires
        old(info).wf(),
    ensures
        final(info).wf(),
        forall|x: Seq<char>| #[trigger] final(info).is_named(x) == old(info).is_named(x),
        forall|x: Seq<char>, r: Seq<char>| #[trigger] final(info).state_of(x, r) == if r == rt@ && old(info).is_named(x)
            && old(info).state_of(x, r) == UsageState::Unknown {
            UsageState::Unused
        } else {
            old(info).state_of(x, r)
        },
        forall|r: Seq<char>| #[trigger] final(info).other_at(r) == if r == rt@ && old(info).other_at(r) == UsageState::Unknown {
            UsageState::Unused
        } else {
            old(info).other_at(r)
        },
{
    let ghost pre = *info;
    let mut i: usize = 0;
    while i < info.exports.len()
        invariant
            0 <= i <= info.exports.len(),
            pre == *old(info),
            info.wf(),
            info.other_exports == pre.other_exports,
            info.exports.len() == pre.exports.len(),
            forall|j: int| 0 <= j < info.exports.len() ==> (#[trigger] info.exports@[j]).name == pre.exports@[j].name,
            forall|j: int, r: Seq<char>| 0 <= j < info.exports.len() ==> #[trigger] usage_at(info.exports@[j].usage@, r) == if r == rt@
                && j < i && usage_at(pre.exports@[j].usage@, r) == UsageState::Unknown {
                UsageState::Unused
            } else {
                usage_at(pre.exports@[j].usage@, r)
            },
        decreases info.exports.len() - i,
    {
        if get_usage(&info.exports[i].usage, rt) == UsageState::Unknown {
            let ghost mid = *info;
            set_usage(&mut info.exports[i].usage, rt, UsageState::Unused);
            proof {
                assert forall|j: int| 0 <= j < info.exports.len() && j != i implies #[trigger] info.exports@[j] == mid.exports@[j] by {}
                assert forall|a: int, b: int|
                    0 <= a < info.exports.len() && 0 <= b < info.exports.len() && a != b implies (#[trigger] info.exports@[a]).name@
                        != (#[trigger] info.exports@[b]).name@ by {
                    assert(mid.exports@[a].name@ != mid.exports@[b].name@);
                }
                assert forall|j: int| 0 <= j < info.exports.len() implies usage_wf((#[trigger] info.exports@[j]).usage@) by {
                    if j != i {
                        assert(info.exports@[j] == mid.exports@[j]);
                    }
                }
                assert forall|j: int, r: Seq<char>| 0 <= j < info.exports.len() implies #[trigger] usage_at(info.exports@[j].usage@, r) == if r == rt@
                    && j < i + 1 && usage_at(pre.exports@[j].usage@, r) == UsageState::Unknown {
                    UsageState::Unused
                } else {
                    usage_at(pre.exports@[j].usage@, r)
                } by {
                    if j != i {
                        assert(info.exports@[j] == mid.exports@[j]);
                    }
                }
            }
        }
        i = i + 1;
    }
    let ghost before_other = *info;
    if get_usage(&info.other_exports, rt) == UsageState::Unknown {
        set_usage(&mut info.other_exports, rt, UsageState::Unused);
    }
    proof {
        assert forall|x: Seq<char>| #[trigger] info.is_named(x) == pre.is_named(x) by {
            if pre.is_named(x) {
                let j = choose|j: int| 0 <= j < pre.exports.len() && (#[trigger] pre.exports@[j]).name@ == x;
                assert(info.exports@[j].name == pre.exports@[j].name);
            }
            if info.is_named(x) {
                let j = choose|j: int| 0 <= j < info.exports.len() && (#[trigger] info.exports@[j]).name@ == x;
                assert(info.exports@[j].name == pre.exports@[j].name);
            }
        }
        assert forall|x: Seq<char>, r: Seq<char>| #[trigger] info.state_of(x, r) == if r == rt@ && pre.is_named(x)
            && pre.state_of(x, r) == UsageState::Unknown {
            UsageState::Unused
        } else {
            pre.state_of(x, r)
        } by {
            if pre.is_named(x) {
                let j = choose|j: int| 0 <= j < pre.exports.len() && (#[trigger] pre.exports@[j]).name@ == x;
                pre.lemma_state_of(j);
                assert(info.exports@[j].name == pre.exports@[j].name);
                info.lemma_state_of(j);
                assert(usage_at(info.exports@[j].usage@, r) == if r == rt@ && usage_at(pre.exports@[j].usage@, r) == UsageState::Unknown {
                    UsageState::Unused
                } else {
                    usage_at(pre.exports@[j].usage@, r)
                });
            }
        }
    }
}

/// Some of the first `b` buckets is for `key` in `rt`.
pub open spec fn done_upto(st: OptimizeCompilationState, key: Seq<char>, b: int, rt: Seq<char>) -> bool {
    exists|i: int| 0 <= i < b && entry_is(#[trigger] st.entries@[i], key, rt)
}

/// Marks the lattice of a fallback module from the buckets of `key`: every observed
/// name is used in its runtime and, in each runtime whose gate passes, every other
/// unknown export becomes unused.
pub fn mark_fallback(info: &mut ExportsInfo, st: &OptimizeCompilationState, key: &String)
    requires
        old(info).wf(),
        st.wf(),
    ensures
        is_marked(*old(info), *final(info), *st, key@),
{
    let ghost pre = *info;
    mark_used(info, st, key);
    let ghost mid = *info;
    let mut b: usize = 0;
    while b < st.entries.len()
        invariant
            0 <= b <= st.entries.len(),
            st.wf(),
            pre == *old(info),
            mid.wf(),
            forall|x: Seq<char>| #[trigger] mid.is_named(x) == (pre.is_named(x) || st.flat_used(key@).contains(x)),
            forall|x: Seq<char>, rt: Seq<char>| #[trigger] mid.state_of(x, rt) == after_used(pre, *st, key@, x, rt),
            mid.other_exports == pre.other_exports,
            info.wf(),
            forall|x: Seq<char>| #[trigger] info.is_named(x) == mid.is_named(x),
            forall|x: Seq<char>, rt: Seq<char>| #[trigger] info.state_of(x, rt) == if done_upto(*st, key@, b as int, rt) {
                marked_state(pre, *st, key@, x, rt)
            } else {
                mid.state_of(x, rt)
            },
            forall|rt: Seq<char>| #[trigger] info.other_at(rt) == if done_upto(*st, key@, b as int, rt) {
                marked_other(pre, *st, key@, rt)
            } else {
                mid.other_at(rt)
            },
        decreases st.entries.len() - b,
    {
        let entry = &st.entries[b];
        let ghost rt0 = entry.runtime@;
        proof {
            st.lemma_used_at(b as int);
            assert(!done_upto(*st, key@, b as int, rt0) || entry.share_key@ != key@) by {
                if done_upto(*st, key@, b as int, rt0) && entry.share_key@ == key@ {
                    let i = choose|i: int| 0 <= i < b && entry_is(#[trigger] st.entries@[i], key@, rt0);
                    assert(st.entries@[i].share_key@ == st.entries@[b as int].share_key@);
                }
            }
            assert forall|rt: Seq<char>| #[trigger] done_upto(*st, key@, b + 1, rt) == (done_upto(*st, key@, b as int, rt)
                || entry_is(*entry, key@, rt)) by {
                if done_upto(*st, key@, b + 1, rt) && !done_upto(*st, key@, b as int, rt) {
                    let i = choose|i: int| 0 <= i < b + 1 && entry_is(#[trigger] st.entries@[i], key@, rt);
                    assert(i == b);
                }
                if entry_is(*entry, key@, rt) {
                    assert(entry_is(st.entries@[b as int], key@, rt));
                }
            }
        }
        let ghost cur = *info;
        if entry.share_key == *key && entry.exports.len() > 0 {
            let gate = gate_holds(info, &entry.exports, &entry.runtime);
            proof {
                let u = st.used(key@, rt0);
                assert(u == name_set(entry.exports@));
                assert(name_set(entry.exports@).contains(entry.exports@[0]@));
                assert(u != Set::<Seq<char>>::empty());
                assert(gate == gate_passes(pre, u, rt0)) by {
                    if gate {
                        assert forall|x: Seq<char>| pre.is_named(x) && #[trigger] pre.state_of(x, rt0) != UsageState::Unknown implies u.contains(x) by {
                            assert(info.is_named(x));
                            assert(info.state_of(x, rt0) == mid.state_of(x, rt0));
                        }
                    }
                    if gate_passes(pre, u, rt0) {
                        assert forall|x: Seq<char>|
                            info.is_named(x) && #[trigger] info.state_of(x, rt0) != UsageState::Unknown implies name_set(entry.exports@).contains(x) by {
                            assert(info.state_of(x, rt0) == mid.state_of(x, rt0));
                            if !u.contains(x) {
                                assert(pre.state_of(x, rt0) != UsageState::Unknown);
                                assert(pre.is_named(x));
                            }
                        }
                    }
                }
            }
            if gate {
                mark_unused(info, &entry.runtime);
            }
        } else {
            proof {
                if entry.share_key@ == key@ {
                    crate::names::lemma_name_set_empty(entry.exports@);
                    assert(!gate_passes(pre, st.used(key@, rt0), rt0));
                }
            }
        }
        proof {
            assert forall|x: Seq<char>, rt: Seq<char>| #[trigger] info.state_of(x, rt) == if done_upto(*st, key@, b + 1, rt) {
                marked_state(pre, *st, key@, x, rt)
            } else {
                mid.state_of(x, rt)
            } by {
                assert(cur.state_of(x, rt) == if done_upto(*st, key@, b as int, rt) {
                    marked_state(pre, *st, key@, x, rt)
                } else {
                    mid.state_of(x, rt)
                });
            }
            assert forall|rt: Seq<char>| #[trigger] info.other_at(rt) == if done_upto(*st, key@, b + 1, rt) {
                marked_other(pre, *st, key@, rt)
            } else {
                mid.other_at(rt)
            } by {
                assert(cur.other_at(rt) == if done_upto(*st, key@, b as int, rt) {
                    marked_other(pre, *st, key@, rt)
                } else {
                    mid.other_at(rt)
                });
                assert(mid.other_at(rt) == pre.other_at(rt));
            }
        }
        b = b + 1;
    }
    proof {
        assert forall|rt: Seq<char>| !#[trigger] done_upto(*st, key@, st.entries.len() as int, rt) implies st.used(key@, rt)
            == Set::<Seq<char>>::empty() by {
            assert forall|x: Seq<char>| !st.used(key@, rt).contains(x) by {
                if st.used(key@, rt).contains(x) {
                    let i = choose|i: int| 0 <= i < st.entries.len() && entry_is(#[trigger] st.entries@[i], key@, rt)
                        && name_set(st.entries@[i].exports@).contains(x);
                    assert(done_upto(*st, key@, st.entries.len() as int, rt));
                }
            }
            assert(st.used(key@, rt) =~= Set::<Seq<char>>::empty());
        }
        assert forall|x: Seq<char>, rt: Seq<char>| #[trigger] info.state_of(x, rt) == marked_state(pre, *st, key@, x, rt) by {
            if !done_upto(*st, key@, st.entries.len() as int, rt) {
                assert(st.used(key@, rt) == Set::<Seq<char>>::empty());
            }
        }
        assert forall|rt: Seq<char>| #[trigger] info.other_at(rt) == marked_other(pre, *st, key@, rt) by {
            assert(mid.other_at(rt) == pre.other_at(rt));
            if !done_upto(*st, key@, st.entries.len() as int, rt) {
                assert(st.used(key@, rt) == Set::<Seq<char>>::empty());
            }
        }
    }
}


/// Every module's lattice is well formed.
pub open spec fn lattices_wf(g: ModuleGraph) -> bool {
    forall|m: int| 0 <= m < g.modules.len() ==> (#[trigger] g.modules@[m]).exports_info.wf()
}

/// `new` is `old` with the same runtimes, connections and provided share key.
pub open spec fn same_shape(old: Module, new: Module) -> bool {
    &&& new.runtimes == old.runtimes
    &&& new.connections == old.connections
    &&& new.provide_share_key == old.provide_share_key
}

/// The fallback module counts as side-effect free once the provide module is marked.
pub open spec fn fallback_side_effect_free(g: ModuleGraph, provide: int, fallback: int) -> bool {
    provide == fallback || g.modules@[fallback].side_effect_free == Some(true)
}

/// Marks the provide module side-effect free, then marks the fallback's lattice for
/// `key`, or, where the fallback is not side-effect free, empties the buckets of `key`
/// and leaves its lattice alone.
pub fn mark_share(
    g: &mut ModuleGraph,
    state: &mut OptimizeCompilationState,
    key: &String,
    provide: usize,
    fallback: usize,
)
    requires
        provide < old(g).modules.len(),
        fallback < old(g).modules.len(),
        lattices_wf(*old(g)),
        old(state).wf(),
    ensures
        final(g).modules.len() == old(g).modules.len(),
        lattices_wf(*final(g)),
        forall|m: int| 0 <= m < final(g).modules.len() ==> same_shape(old(g).modules@[m], #[trigger] final(g).modules@[m]),
        forall|m: int| 0 <= m < final(g).modules.len() && m != provide && m != fallback ==> #[trigger] final(g).modules@[m] == old(g).modules@[m],
        final(g).modules@[provide as int].side_effect_free == Some(true),
        provide != fallback ==> final(g).modules@[provide as int].exports_info == old(g).modules@[provide as int].exports_info,
        provide != fallback ==> final(g).modules@[fallback as int].side_effect_free == old(g).modules@[fallback as int].side_effect_free,
        fallback_side_effect_free(*old(g), provide as int, fallback as int) ==> *final(state) == *old(state) && is_marked(
            old(g).modules@[fallback as int].exports_info,
            final(g).modules@[fallback as int].exports_info,
            *old(state),
            key@,
        ),
        !fallback_side_effect_free(*old(g), provide as int, fallback as int) ==> final(g).modules@[fallback as int].exports_info
            == old(g).modules@[fallback as int].exports_info && final(state).wf() && final(state).share_keys == old(state).share_keys
            && final(state).runtime_specs == old(state).runtime_specs && final(state).share_key_to_modules
            == old(state).share_key_to_modules && (forall|k: Seq<char>, r: Seq<char>| #[trigger] final(state).has_bucket(k, r)
            == old(state).has_bucket(k, r)) && (forall|k: Seq<char>, r: Seq<char>| #[trigger] final(state).used(k, r) == if k
            == key@ {
            Set::<Seq<char>>::empty()
        } else {
            old(state).used(k, r)
        }) && (forall|k: Seq<char>| #[trigger] final(state).flat_used(k) == if k == key@ {
            Set::<Seq<char>>::empty()
        } else {
            old(state).flat_used(k)
        }),
{
    if g.modules[provide].side_effect_free != Some(true) {
        g.modules[provide].side_effect_free = Some(true);
    }
    let ghost mid = *g;
    assert forall|m: int| 0 <= m < g.modules.len() && m != provide implies #[trigger] g.modules@[m] == old(g).modules@[m] by {}
    if g.modules[fallback].side_effect_free != Some(true) {
        state.clear_exports_for_share(key);
        return;
    }
    mark_fallback(&mut g.modules[fallback].exports_info, state, key);
    proof {
        assert forall|m: int| 0 <= m < g.modules.len() && m != fallback implies #[trigger] g.modules@[m] == mid.modules@[m] by {}
        assert forall|m: int| 0 <= m < g.modules.len() implies (#[trigger] g.modules@[m]).exports_info.wf() by {
            if m != fallback {
                assert(g.modules@[m] == mid.modules@[m]);
            }
        }
    }
}


/// The pairs name modules of `g`, hold each share key once, and share no module.
pub open spec fn pairs_disjoint(g: ModuleGraph, pairs: Seq<ProvidePair>) -> bool {
    forall|i: int, j: int|
        0 <= i < pairs.len() && 0 <= j < pairs.len() && i != j ==> (#[trigger] pairs[i]).share_key@ != (
        #[trigger] pairs[j]).share_key@ && pairs[i].provide != pairs[j].provide && pairs[i].provide != pairs[j].fallback
            && pairs[i].fallback != pairs[j].provide && pairs[i].fallback != pairs[j].fallback
}

/// Every pair names modules of `g`.
pub open spec fn pairs_in_graph(g: ModuleGraph, pairs: Seq<ProvidePair>) -> bool {
    forall|i: int| 0 <= i < pairs.len() ==> (#[trigger] pairs[i]).provide < g.modules.len() && pairs[i].fallback < g.modules.len()
}

/// Module `m` is the provide or the fallback module of some pair.
pub open spec fn in_some_pair(pairs: Seq<ProvidePair>, m: int) -> bool {
    exists|i: int| 0 <= i < pairs.len() && ((#[trigger] pairs[i]).provide == m || pairs[i].fallback == m)
}

/// `k` is the share key of some pair.
pub open spec fn key_paired(pairs: Seq<ProvidePair>, k: Seq<char>) -> bool {
    exists|i: int| 0 <= i < pairs.len() && (#[trigger] pairs[i]).share_key@ == k
}

/// What marking did for the pair `p`, from graph `g0` and table `st0` to `g1` and `st1`.
pub open spec fn pair_marked(
    g0: ModuleGraph,
    g1: ModuleGraph,
    st0: OptimizeCompilationState,
    st1: OptimizeCompilationState,
    p: ProvidePair,
) -> bool {
    let prov = p.provide as int;
    let fb = p.fallback as int;
    let k = p.share_key@;
    &&& g1.modules@[prov].side_effect_free == Some(true)
    &&& fallback_side_effect_free(g0, prov, fb) ==> is_marked(
        g0.modules@[fb].exports_info,
        g1.modules@[fb].exports_info,
        st0,
        k,
    ) && (forall|r: Seq<char>| #[trigger] st1.used(k, r) == st0.used(k, r)) && st1.flat_used(k) == st0.flat_used(k)
    &&& !fallback_side_effect_free(g0, prov, fb) ==> g1.modules@[fb].exports_info == g0.modules@[fb].exports_info
        && (forall|r: Seq<char>| #[trigger] st1.used(k, r) == Set::<Seq<char>>::empty()) && st1.flat_used(k) == Set::<
        Seq<char>,
    >::empty()
}

/// The keys of the pairs are held once each.
pub open spec fn pair_keys_distinct(pairs: Seq<ProvidePair>) -> bool {
    forall|i: int, j: int|
        0 <= i < pairs.len() && 0 <= j < pairs.len() && i != j ==> (#[trigger] pairs[i]).share_key@ != (#[trigger] pairs[j]).share_key@
}

/// Graph `gb` is graph `ga` after the pair `p` is marked from the observed names `used`
/// (per key and runtime) and `flat` (per key): the provide module is marked
/// side-effect free and keeps its lattice, and the fallback's lattice is marked where it
/// is side-effect free and left alone where it is not. No other module changes.
pub open spec fn step_marked(
    ga: ModuleGraph,
    gb: ModuleGraph,
    p: ProvidePair,
    used: spec_fn(Seq<char>, Seq<char>) -> Set<Seq<char>>,
    flat: spec_fn(Seq<char>) -> Set<Seq<char>>,
) -> bool {
    let prov = p.provide as int;
    let fb = p.fallback as int;
    let k = p.share_key@;
    &&& gb.modules.len() == ga.modules.len()
    &&& forall|m: int| 0 <= m < ga.modules.len() && m != prov && m != fb ==> #[trigger] gb.modules@[m] == ga.modules@[m]
    &&& same_shape(ga.modules@[prov], gb.modules@[prov])
    &&& same_shape(ga.modules@[fb], gb.modules@[fb])
    &&& gb.modules@[prov].side_effect_free == Some(true)
    &&& prov != fb ==> gb.modules@[prov].exports_info == ga.modules@[prov].exports_info
        && gb.modules@[fb].side_effect_free == ga.modules@[fb].side_effect_free
    &&& fallback_side_effect_free(ga, prov, fb) ==> is_marked_by(
        ga.modules@[fb].exports_info,
        gb.modules@[fb].exports_info,
        |r: Seq<char>| used(k, r),
        flat(k),
    )
    &&& !fallback_side_effect_free(ga, prov, fb) ==> gb.modules@[fb].exports_info == ga.modules@[fb].exports_info
}

/// `gs` runs through the pairs in order: `gs[i + 1]` is `gs[i]` after pair `i` is marked.
pub open spec fn marked_in_order(
    gs: Seq<ModuleGraph>,
    pairs: Seq<ProvidePair>,
    used: spec_fn(Seq<char>, Seq<char>) -> Set<Seq<char>>,
    flat: spec_fn(Seq<char>) -> Set<Seq<char>>,
) -> bool {
    &&& gs.len() == pairs.len() + 1
    &&& forall|i: int| 0 <= i < pairs.len() ==> #[trigger] step_marked(gs[i], gs[i + 1], pairs[i], used, flat)
}

/// The table `st` after marking along `gs`: a key whose fallback was found not
/// side-effect free has empty buckets; every other key keeps the names `used` and `flat`.
pub open spec fn table_after_marking(
    st: OptimizeCompilationState,
    gs: Seq<ModuleGraph>,
    pairs: Seq<ProvidePair>,
    used: spec_fn(Seq<char>, Seq<char>) -> Set<Seq<char>>,
    flat: spec_fn(Seq<char>) -> Set<Seq<char>>,
) -> bool {
    &&& forall|i: int|
        0 <= i < pairs.len() ==> {
            let p = #[trigger] pairs[i];
            if fallback_side_effect_free(gs[i], p.provide as int, p.fallback as int) {
                (forall|r: Seq<char>| #[trigger] st.used(p.share_key@, r) == used(p.share_key@, r)) && st.flat_used(p.share_key@)
                    == flat(p.share_key@)
            } else {
                (forall|r: Seq<char>| #[trigger] st.used(p.share_key@, r) == Set::<Seq<char>>::empty()) && st.flat_used(p.share_key@)
                    == Set::<Seq<char>>::empty()
            }
        }
    &&& forall|k: Seq<char>, r: Seq<char>| !key_paired(pairs, k) ==> #[trigger] st.used(k, r) == used(k, r)
}

/// Along `gs`, from `g0` to `g1`, every pair of `st0` is marked in order from the table
/// of `st0`, leaving the table `st1`.
pub open spec fn marks_session(
    gs: Seq<ModuleGraph>,
    g0: ModuleGraph,
    g1: ModuleGraph,
    st0: OptimizeCompilationState,
    st1: OptimizeCompilationState,
) -> bool {
    &&& gs.len() > 0
    &&& gs[0] == g0
    &&& gs.last() == g1
    &&& marked_in_order(
        gs,
        st0.share_key_to_modules@,
        |k: Seq<char>, r: Seq<char>| st0.used(k, r),
        |k: Seq<char>| st0.flat_used(k),
    )
    &&& table_after_marking(
        st1,
        gs,
        st0.share_key_to_modules@,
        |k: Seq<char>, r: Seq<char>| st0.used(k, r),
        |k: Seq<char>| st0.flat_used(k),
    )
}

/// Marking a step from pointwise equal observations gives the same relation.
pub proof fn lemma_step_marked_congruent(
    ga: ModuleGraph,
    gb: ModuleGraph,
    p: ProvidePair,
    u1: spec_fn(Seq<char>, Seq<char>) -> Set<Seq<char>>,
    f1: spec_fn(Seq<char>) -> Set<Seq<char>>,
    u2: spec_fn(Seq<char>, Seq<char>) -> Set<Seq<char>>,
    f2: spec_fn(Seq<char>) -> Set<Seq<char>>,
)
    requires
        step_marked(ga, gb, p, u1, f1),
        forall|r: Seq<char>| #[trigger] u1(p.share_key@, r) == u2(p.share_key@, r),
        f1(p.share_key@) == f2(p.share_key@),
    ensures
        step_marked(ga, gb, p, u2, f2),
{
    let k = p.share_key@;
    let fb = p.fallback as int;
    if fallback_side_effect_free(ga, p.provide as int, fb) {
        let l0 = ga.modules@[fb].exports_info;
        let l1 = gb.modules@[fb].exports_info;
        assert forall|x: Seq<char>, rt: Seq<char>| #[trigger] l1.state_of(x, rt) == marked_state_by(l0, u2(k, rt), f2(k), x, rt) by {
            assert(l1.state_of(x, rt) == marked_state_by(l0, u1(k, rt), f1(k), x, rt));
        }
        assert forall|rt: Seq<char>| #[trigger] l1.other_at(rt) == marked_other_by(l0, u2(k, rt), rt) by {
            assert(l1.other_at(rt) == marked_other_by(l0, u1(k, rt), rt));
        }
    }
}

/// Marks every provide/fallback pair of the session in turn.
pub fn mark_exports(g: &mut ModuleGraph, state: &mut OptimizeCompilationState)
    requires
        lattices_wf(*old(g)),
        old(state).wf(),
        pairs_in_graph(*old(g), old(state).share_key_to_modules@),
        pair_keys_distinct(old(state).share_key_to_modules@),
    ensures
        exists|gs: Seq<ModuleGraph>| #[trigger] marks_session(gs, *old(g), *final(g), *old(state), *final(state)),
        final(g).modules.len() == old(g).modules.len(),
        lattices_wf(*final(g)),
        forall|m: int| 0 <= m < final(g).modules.len() ==> same_shape(old(g).modules@[m], #[trigger] final(g).modules@[m]),
        final(state).wf(),
        final(state).share_keys == old(state).share_keys,
        final(state).runtime_specs == old(state).runtime_specs,
        final(state).share_key_to_modules == old(state).share_key_to_modules,
        forall|k: Seq<char>, r: Seq<char>| #[trigger] final(state).has_bucket(k, r) == old(state).has_bucket(k, r),
        forall|i: int| 0 <= i < old(state).share_key_to_modules.len() ==> final(g).modules@[(#[trigger] old(state).share_key_to_modules@[i]).provide as int].side_effect_free == Some(true),
        pairs_disjoint(*old(g), old(state).share_key_to_modules@) ==> (forall|i: int|
            0 <= i < old(state).share_key_to_modules.len() ==> pair_marked(
                *old(g),
                *final(g),
                *old(state),
                *final(state),
                #[trigger] old(state).share_key_to_modules@[i],
            )) && (forall|m: int|
            0 <= m < final(g).modules.len() && !in_some_pair(old(state).share_key_to_modules@, m) ==> #[trigger] final(g).modules@[m]
                == old(g).modules@[m]) && (forall|k: Seq<char>, r: Seq<char>|
            !key_paired(old(state).share_key_to_modules@, k) ==> #[trigger] final(state).used(k, r) == old(state).used(k, r)),
{
    let ghost g0 = *g;
    let ghost st0 = *state;
    let n = state.share_key_to_modules.len();
    let mut i: usize = 0;
    let ghost mut gs: Seq<ModuleGraph> = seq![*g];
    while i < n
        invariant
            0 <= i <= n,
            n == st0.share_key_to_modules.len(),
            pair_keys_distinct(st0.share_key_to_modules@),
            gs.len() == i + 1,
            gs[0] == g0,
            gs[i as int] == *g,
            marked_in_order(
                gs,
                st0.share_key_to_modules@.subrange(0, i as int),
                |k: Seq<char>, r: Seq<char>| st0.used(k, r),
                |k: Seq<char>| st0.flat_used(k),
            ),
            table_after_marking(
                *state,
                gs,
                st0.share_key_to_modules@.subrange(0, i as int),
                |k: Seq<char>, r: Seq<char>| st0.used(k, r),
                |k: Seq<char>| st0.flat_used(k),
            ),
            forall|k: Seq<char>| !key_paired(st0.share_key_to_modules@.subrange(0, i as int), k) ==> #[trigger] state.flat_used(k) == st0.flat_used(k),
            g0 == *old(g),
            st0 == *old(state),
            pairs_in_graph(g0, st0.share_key_to_modules@),
            g.modules.len() == g0.modules.len(),
            lattices_wf(*g),
            forall|m: int| 0 <= m < g.modules.len() ==> same_shape(g0.modules@[m], #[trigger] g.modules@[m]),
            state.wf(),
            state.share_keys == st0.share_keys,
            state.runtime_specs == st0.runtime_specs,
            state.share_key_to_modules == st0.share_key_to_modules,
            forall|k: Seq<char>, r: Seq<char>| #[trigger] state.has_bucket(k, r) == st0.has_bucket(k, r),
            forall|j: int| 0 <= j < i ==> g.modules@[(#[trigger] st0.share_key_to_modules@[j]).provide as int].side_effect_free == Some(true),
            pairs_disjoint(g0, st0.share_key_to_modules@) ==> (forall|j: int|
                0 <= j < i ==> pair_marked(g0, *g, st0, *state, #[trigger] st0.share_key_to_modules@[j])) && (forall|m: int|
                0 <= m < g.modules.len() && !in_some_pair(st0.share_key_to_modules@.subrange(0, i as int), m) ==> #[trigger] g.modules@[m]
                    == g0.modules@[m]) && (forall|k: Seq<char>, r: Seq<char>|
                !key_paired(st0.share_key_to_modules@.subrange(0, i as int), k) ==> #[trigger] state.used(k, r) == st0.used(k, r))
                && (forall|k: Seq<char>|
                !key_paired(st0.share_key_to_modules@.subrange(0, i as int), k) ==> #[trigger] state.flat_used(k) == st0.flat_used(k)),
        decreases n - i,
    {
        let key = copy_name(&state.share_key_to_modules[i].share_key);
        let provide = state.share_key_to_modules[i].provide;
        let fallback = state.share_key_to_modules[i].fallback;
        let ghost g1 = *g;
        let ghost st1 = *state;
        let ghost p = st0.share_key_to_modules@[i as int];
        mark_share(g, state, &key, provide, fallback);
        proof {
            let pairs = st0.share_key_to_modules@;
            let pre_sub = pairs.subrange(0, i as int);
            let post_sub = pairs.subrange(0, i + 1);
            let u0 = |k: Seq<char>, r: Seq<char>| st0.used(k, r);
            let f0 = |k: Seq<char>| st0.flat_used(k);
            let old_gs = gs;
            gs = gs.push(*g);
            assert(!key_paired(pre_sub, key@)) by {
                if key_paired(pre_sub, key@) {
                    let j = choose|j: int| 0 <= j < pre_sub.len() && (#[trigger] pre_sub[j]).share_key@ == key@;
                    assert(pairs[j] == pre_sub[j]);
                    assert(pairs[j].share_key@ != pairs[i as int].share_key@);
                }
            }
            assert(forall|r: Seq<char>| #[trigger] st1.used(key@, r) == st0.used(key@, r));
            assert(st1.flat_used(key@) == st0.flat_used(key@));
            assert(step_marked(g1, *g, p, u0, f0)) by {
                if fallback_side_effect_free(g1, provide as int, fallback as int) {
                    let l0 = g1.modules@[fallback as int].exports_info;
                    let l1 = g.modules@[fallback as int].exports_info;
                    assert(is_marked(l0, l1, st1, key@));
                    assert forall|x: Seq<char>, rt: Seq<char>| #[trigger] l1.state_of(x, rt) == marked_state_by(l0, st0.used(key@, rt), st0.flat_used(key@), x, rt) by {
                        assert(l1.state_of(x, rt) == marked_state_by(l0, st1.used(key@, rt), st1.flat_used(key@), x, rt));
                    }
                    assert forall|rt: Seq<char>| #[trigger] l1.other_at(rt) == marked_other_by(l0, st0.used(key@, rt), rt) by {
                        assert(l1.other_at(rt) == marked_other_by(l0, st1.used(key@, rt), rt));
                    }
                }
            }
            assert(marked_in_order(gs, post_sub, u0, f0)) by {
                assert forall|j: int| 0 <= j < post_sub.len() implies #[trigger] step_marked(gs[j], gs[j + 1], post_sub[j], u0, f0) by {
                    if j < i {
                        assert(post_sub[j] == pre_sub[j]);
                        assert(step_marked(old_gs[j], old_gs[j + 1], pre_sub[j], u0, f0));
                    } else {
                        assert(post_sub[j] == p);
                    }
                }
            }
            assert(table_after_marking(*state, gs, post_sub, u0, f0)) by {
                assert forall|j: int| 0 <= j < post_sub.len() implies {
                    let q = #[trigger] post_sub[j];
                    if fallback_side_effect_free(gs[j], q.provide as int, q.fallback as int) {
                        (forall|r: Seq<char>| #[trigger] state.used(q.share_key@, r) == u0(q.share_key@, r)) && state.flat_used(q.share_key@)
                            == f0(q.share_key@)
                    } else {
                        (forall|r: Seq<char>| #[trigger] state.used(q.share_key@, r) == Set::<Seq<char>>::empty()) && state.flat_used(q.share_key@)
                            == Set::<Seq<char>>::empty()
                    }
                } by {
                    if j < i {
                        let q = post_sub[j];
                        assert(q == pre_sub[j]);
                        assert(q.share_key@ != key@) by {
                            assert(pairs[j] == q);
                        }
                        assert(gs[j] == old_gs[j]);
                    } else {
                        assert(post_sub[j] == p);
                        assert(gs[j] == g1);
                    }
                }
                assert forall|k: Seq<char>, r: Seq<char>| !key_paired(post_sub, k) implies #[trigger] state.used(k, r) == u0(k, r) by {
                    if key_paired(pre_sub, k) {
                        let j = choose|j: int| 0 <= j < pre_sub.len() && (#[trigger] pre_sub[j]).share_key@ == k;
                        assert(post_sub[j] == pre_sub[j]);
                    }
                    assert(post_sub[i as int] == p);
                    assert(k != key@);
                    assert(st1.used(k, r) == st0.used(k, r));
                }
            }
            assert forall|k: Seq<char>| !key_paired(post_sub, k) implies #[trigger] state.flat_used(k) == st0.flat_used(k) by {
                if key_paired(pre_sub, k) {
                    let j = choose|j: int| 0 <= j < pre_sub.len() && (#[trigger] pre_sub[j]).share_key@ == k;
                    assert(post_sub[j] == pre_sub[j]);
                }
                assert(post_sub[i as int] == p);
                assert(k != key@);
            }
            assert forall|j: int| 0 <= j < i implies #[trigger] post_sub[j] == pre_sub[j] by {}
            assert(post_sub[i as int] == p);
            assert forall|j: int| 0 <= j < i + 1 implies g.modules@[(#[trigger] pairs[j]).provide as int].side_effect_free == Some(true) by {
                if j < i {
                    let pj = pairs[j].provide as int;
                    if pj != provide && pj != fallback {
                        assert(g.modules@[pj] == g1.modules@[pj]);
                    }
                }
            }
            if pairs_disjoint(g0, pairs) {
                assert(!in_some_pair(pre_sub, provide as int)) by {
                    if in_some_pair(pre_sub, provide as int) {
                        let j = choose|j: int| 0 <= j < pre_sub.len() && ((#[trigger] pre_sub[j]).provide == provide as int || pre_sub[j].fallback == provide as int);
                        assert(pairs[j] == pre_sub[j]);
                    }
                }
                assert(!in_some_pair(pre_sub, fallback as int)) by {
                    if in_some_pair(pre_sub, fallback as int) {
                        let j = choose|j: int| 0 <= j < pre_sub.len() && ((#[trigger] pre_sub[j]).provide == fallback as int || pre_sub[j].fallback == fallback as int);
                        assert(pairs[j] == pre_sub[j]);
                    }
                }
                assert(!key_paired(pre_sub, key@)) by {
                    if key_paired(pre_sub, key@) {
                        let j = choose|j: int| 0 <= j < pre_sub.len() && (#[trigger] pre_sub[j]).share_key@ == key@;
                        assert(pairs[j] == pre_sub[j]);
                    }
                }
                assert(g1.modules@[provide as int] == g0.modules@[provide as int]);
                assert(g1.modules@[fallback as int] == g0.modules@[fallback as int]);
                assert(forall|r: Seq<char>| #[trigger] st1.used(key@, r) == st0.used(key@, r));
                assert(st1.flat_used(key@) == st0.flat_used(key@));
                assert(pair_marked(g0, *g, st0, *state, p));
                assert forall|j: int| 0 <= j < i + 1 implies pair_marked(g0, *g, st0, *state, #[trigger] pairs[j]) by {
                    if j < i {
                        let q = pairs[j];
                        assert(pair_marked(g0, g1, st0, st1, q));
                        assert(q.share_key@ != key@);
                        assert(q.provide != provide && q.provide != fallback && q.fallback != provide && q.fallback != fallback);
                        assert(g.modules@[q.provide as int] == g1.modules@[q.provide as int]);
                        assert(g.modules@[q.fallback as int] == g1.modules@[q.fallback as int]);
                    }
                }
                assert forall|m: int|
                    0 <= m < g.modules.len() && !in_some_pair(post_sub, m) implies #[trigger] g.modules@[m] == g0.modules@[m] by {
                    assert(post_sub[i as int].provide == provide);
                    if in_some_pair(pre_sub, m) {
                        let j = choose|j: int| 0 <= j < pre_sub.len() && ((#[trigger] pre_sub[j]).provide == m || pre_sub[j].fallback == m);
                        assert(post_sub[j] == pre_sub[j]);
                    }
                    assert(m != provide && m != fallback);
                    assert(g.modules@[m] == g1.modules@[m]);
                }
                assert forall|k: Seq<char>, r: Seq<char>|
                    !key_paired(post_sub, k) implies #[trigger] state.used(k, r) == st0.used(k, r) by {
                    if key_paired(pre_sub, k) {
                        let j = choose|j: int| 0 <= j < pre_sub.len() && (#[trigger] pre_sub[j]).share_key@ == k;
                        assert(post_sub[j] == pre_sub[j]);
                    }
                    assert(k != key@);
                }
                assert forall|k: Seq<char>|
                    !key_paired(post_sub, k) implies #[trigger] state.flat_used(k) == st0.flat_used(k) by {
                    if key_paired(pre_sub, k) {
                        let j = choose|j: int| 0 <= j < pre_sub.len() && (#[trigger] pre_sub[j]).share_key@ == k;
                        assert(post_sub[j] == pre_sub[j]);
                    }
                    assert(k != key@);
                }
            }
        }
        i = i + 1;
    }
    assert(st0.share_key_to_modules@.subrange(0, n as int) =~= st0.share_key_to_modules@);
    assert(gs.last() == *g);
    assert(marks_session(gs, g0, *g, st0, *state));
}

} // verus!
