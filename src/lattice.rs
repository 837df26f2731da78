//! The per-export, per-runtime usage lattice of a module.
use vstd::prelude::*;
use crate::names::copy_name;

verus! {

/// What is known of one export in one runtime.
#[derive(PartialEq, Eq, Structural, Clone, Copy, Debug)]
pub enum UsageState {
    Unknown,
    Used,
    Unused,
}

/// The state of an export in one runtime.
pub struct RuntimeUsage {
    pub runtime: String,
    pub state: UsageState,
}

/// One export that the lattice tracks by name.
pub struct ExportInfo {
    pub name: String,
    pub usage: Vec<RuntimeUsage>,
}

/// The lattice of a module: the exports followed by name, and one catch-all entry for
/// every other export.
pub struct ExportsInfo {
    pub exports: Vec<ExportInfo>,
    pub other_exports: Vec<RuntimeUsage>,
}

/// A runtime has at most one state in `u`.
pub open spec fn usage_wf(u: Seq<RuntimeUsage>) -> bool {
    forall|i: int, j: int|
        0 <= i < u.len() && 0 <= j < u.len() && i != j ==> (#[trigger] u[i]).runtime@ != (#[trigger] u[j]).runtime@
}

/// The state that `u` records for `rt`; `Unknown` where it records none.
pub open spec fn usage_at(u: Seq<RuntimeUsage>, rt: Seq<char>) -> UsageState {
    if exists|i: int| 0 <= i < u.len() && (#[trigger] u[i]).runtime@ == rt {
        u[choose|i: int| 0 <= i < u.len() && (#[trigger] u[i]).runtime@ == rt].state
    } else {
        UsageState::Unknown
    }
}

/// Where `u` is well formed and records `rt` at `i`, that is its state for `rt`.
pub proof fn lemma_usage_at(u: Seq<RuntimeUsage>, i: int)
    requires
        usage_wf(u),
        0 <= i < u.len(),
    ensures
        usage_at(u, u[i].runtime@) == u[i].state,
{
    let rt = u[i].runtime@;
    let j = choose|j: int| 0 <= j < u.len() && (#[trigger] u[j]).runtime@ == rt;
    if j != i {
        assert(u[j].runtime@ != u[i].runtime@);
    }
}

/// The state recorded for `rt`.
pub fn get_usage(u: &Vec<RuntimeUsage>, rt: &String) -> (r: UsageState)
    requires
        usage_wf(u@),
    ensures
        r == usage_at(u@, rt@),
{
    let mut i: usize = 0;
    while i < u.len()
        invariant
            0 <= i <= u.len(),
            usage_wf(u@),
            forall|j: int| 0 <= j < i ==> (#[trigger] u@[j]).runtime@ != rt@,
        decreases u.len() - i,
    {
        if u[i].runtime == *rt {
            proof {
                lemma_usage_at(u@, i as int);
            }
            return u[i].state;
        }
        i = i + 1;
    }
    UsageState::Unknown
}

/// Records `state` for `rt`, leaving the other runtimes as they were.
pub fn set_usage(u: &mut Vec<RuntimeUsage>, rt: &String, state: UsageState)
    requires
        usage_wf(old(u)@),
    ensures
        usage_wf(final(u)@),
        forall|r: Seq<char>| #[trigger] usage_at(final(u)@, r) == if r == rt@ {
            state
        } else {
            usage_at(old(u)@, r)
        },
{
    let mut i: usize = 0;
    while i < u.len()
        invariant
            0 <= i <= u.len(),
            u@ == old(u)@,
            usage_wf(u@),
            forall|j: int| 0 <= j < i ==> (#[trigger] u@[j]).runtime@ != rt@,
        decreases u.len() - i,
    {
        if u[i].runtime == *rt {
            let ghost pre = u@;
            u.set(i, RuntimeUsage { runtime: copy_name(rt), state });
            proof {
                assert forall|a: int, b: int|
                    0 <= a < u@.len() && 0 <= b < u@.len() && a != b implies (#[trigger] u@[a]).runtime@ != (#[trigger] u@[b]).runtime@ by {
                    assert(pre[a].runtime@ != pre[b].runtime@);
                }
                assert forall|r: Seq<char>| #[trigger] usage_at(u@, r) == if r == rt@ { state } else { usage_at(pre, r) } by {
                    if r == rt@ {
                        lemma_usage_at(u@, i as int);
                    } else {
                        if exists|j: int| 0 <= j < pre.len() && (#[trigger] pre[j]).runtime@ == r {
                            let j = choose|j: int| 0 <= j < pre.len() && (#[trigger] pre[j]).runtime@ == r;
                            lemma_usage_at(pre, j);
                            lemma_usage_at(u@, j);
                        } else {
                            assert(!exists|j: int| 0 <= j < u@.len() && (#[trigger] u@[j]).runtime@ == r) by {
                                assert forall|j: int| 0 <= j < u@.len() implies (#[trigger] u@[j]).runtime@ != r by {
                                    if j != i {
                                        assert(u@[j] == pre[j]);
                                    }
                                }
                            }
                        }
                    }
                }
            }
            return;
        }
        i = i + 1;
    }
    let ghost pre = u@;
    u.push(RuntimeUsage { runtime: copy_name(rt), state });
    proof {
        assert forall|a: int, b: int|
            0 <= a < u@.len() && 0 <= b < u@.len() && a != b implies (#[trigger] u@[a]).runtime@ != (#[trigger] u@[b]).runtime@ by {
            if a < pre.len() && b < pre.len() {
                assert(pre[a].runtime@ != pre[b].runtime@);
            } else if a < pre.len() {
                assert(u@[a] == pre[a]);
            } else {
                assert(u@[b] == pre[b]);
            }
        }
        assert forall|r: Seq<char>| #[trigger] usage_at(u@, r) == if r == rt@ { state } else { usage_at(pre, r) } by {
            if r == rt@ {
                lemma_usage_at(u@, pre.len() as int);
            } else {
                if exists|j: int| 0 <= j < pre.len() && (#[trigger] pre[j]).runtime@ == r {
                    let j = choose|j: int| 0 <= j < pre.len() && (#[trigger] pre[j]).runtime@ == r;
                    lemma_usage_at(pre, j);
                    assert(u@[j] == pre[j]);
                    lemma_usage_at(u@, j);
                } else {
                    assert(!exists|j: int| 0 <= j < u@.len() && (#[trigger] u@[j]).runtime@ == r) by {
                        assert forall|j: int| 0 <= j < u@.len() implies (#[trigger] u@[j]).runtime@ != r by {
                            if j < pre.len() {
                                assert(u@[j] == pre[j]);
                            }
                        }
                    }
                }
            }
        }
    }
}

impl ExportsInfo {
    /// Export names are held once each, and every runtime has at most one state per
    /// entry.
    pub open spec fn wf(&self) -> bool {
        &&& forall|i: int, j: int|
            0 <= i < self.exports.len() && 0 <= j < self.exports.len() && i != j
                ==> (#[trigger] self.exports@[i]).name@ != (#[trigger] self.exports@[j]).name@
        &&& forall|i: int| 0 <= i < self.exports.len() ==> usage_wf((#[trigger] self.exports@[i]).usage@)
        &&& usage_wf(self.other_exports@)
    }

    /// The export `x` has an entry of its own.
    pub open spec fn is_named(&self, x: Seq<char>) -> bool {
        exists|i: int| 0 <= i < self.exports.len() && (#[trigger] self.exports@[i]).name@ == x
    }

    /// The state of the named export `x` in `rt`; `Unknown` where `x` has no entry.
    pub open spec fn state_of(&self, x: Seq<char>, rt: Seq<char>) -> UsageState {
        if self.is_named(x) {
            usage_at(
                self.exports@[choose|i: int| 0 <= i < self.exports.len() && (#[trigger] self.exports@[i]).name@ == x].usage@,
                rt,
            )
        } else {
            UsageState::Unknown
        }
    }

    /// The state of the catch-all entry in `rt`.
    pub open spec fn other_at(&self, rt: Seq<char>) -> UsageState {
        usage_at(self.other_exports@, rt)
    }

    /// Where the lattice is well formed, the entry at `i` gives the state of its name.
    pub proof fn lemma_state_of(&self, i: int)
        requires
            self.wf(),
            0 <= i < self.exports.len(),
        ensures
            self.is_named(self.exports@[i].name@),
            forall|rt: Seq<char>| #[trigger] self.state_of(self.exports@[i].name@, rt) == usage_at(self.exports@[i].usage@, rt),
    {
        let x = self.exports@[i].name@;
        assert(self.is_named(x));
        let j = choose|j: int| 0 <= j < self.exports.len() && (#[trigger] self.exports@[j]).name@ == x;
        if j != i {
            assert(self.exports@[j].name@ != self.exports@[i].name@);
        }
    }

    /// The position of the entry for `x`, added in the `Unknown` state if absent.
    pub fn ensure_owned_export_info(&mut self, x: &String) -> (r: usize)
        requires
            old(self).wf(),
        ensures
            final(self).wf(),
            r < final(self).exports.len(),
            final(self).exports@[r as int].name@ == x@,
            final(self).other_exports == old(self).other_exports,
            forall|y: Seq<char>| #[trigger] final(self).is_named(y) == (old(self).is_named(y) || y == x@),
            forall|y: Seq<char>, rt: Seq<char>| #[trigger] final(self).state_of(y, rt) == old(self).state_of(y, rt),
            final(self).exports.len() >= old(self).exports.len(),
            forall|i: int| 0 <= i < old(self).exports.len() ==> #[trigger] final(self).exports@[i] == old(self).exports@[i],
    {
        let mut i: usize = 0;
        while i < self.exports.len()
            invariant
                0 <= i <= self.exports.len(),
                *self == *old(self),
                old(self).wf(),
                forall|j: int| 0 <= j < i ==> (#[trigger] self.exports@[j]).name@ != x@,
            decreases self.exports.len() - i,
        {
            if self.exports[i].name == *x {
                return i;
            }
            i = i + 1;
        }
        let ghost pre = *self;
        self.exports.push(ExportInfo { name: copy_name(x), usage: Vec::new() });
        proof {
            assert forall|a: int, b: int|
                0 <= a < self.exports.len() && 0 <= b < self.exports.len() && a != b implies (#[trigger] self.exports@[a]).name@
                    != (#[trigger] self.exports@[b]).name@ by {
                if a < pre.exports.len() && b < pre.exports.len() {
                    assert(pre.exports@[a].name@ != pre.exports@[b].name@);
                } else if a < pre.exports.len() {
                    assert(self.exports@[a] == pre.exports@[a]);
                } else {
                    assert(self.exports@[b] == pre.exports@[b]);
                }
            }
            assert forall|j: int| 0 <= j < self.exports.len() implies usage_wf((#[trigger] self.exports@[j]).usage@) by {
                if j < pre.exports.len() {
                    assert(self.exports@[j] == pre.exports@[j]);
                }
            }
            assert forall|y: Seq<char>| #[trigger] self.is_named(y) == (pre.is_named(y) || y == x@) by {
                if pre.is_named(y) {
                    let j = choose|j: int| 0 <= j < pre.exports.len() && (#[trigger] pre.exports@[j]).name@ == y;
                    assert(self.exports@[j] == pre.exports@[j]);
                }
                if y == x@ {
                    assert(self.exports@[pre.exports.len() as int].name@ == y);
                }
                if self.is_named(y) && y != x@ {
                    let j = choose|j: int| 0 <= j < self.exports.len() && (#[trigger] self.exports@[j]).name@ == y;
                    assert(self.exports@[j] == pre.exports@[j]);
                }
            }
            assert forall|y: Seq<char>, rt: Seq<char>| #[trigger] self.state_of(y, rt) == pre.state_of(y, rt) by {
                if pre.is_named(y) {
                    let j = choose|j: int| 0 <= j < pre.exports.len() && (#[trigger] pre.exports@[j]).name@ == y;
                    pre.lemma_state_of(j);
                    assert(self.exports@[j] == pre.exports@[j]);
                    self.lemma_state_of(j);
                } else if y == x@ {
                    self.lemma_state_of(pre.exports.len() as int);
                    assert(usage_at(self.exports@[pre.exports.len() as int].usage@, rt) == UsageState::Unknown);
                }
            }
        }
        i
    }

    /// The state of `x` in `rt`.
    pub fn get_used(&self, x: &String, rt: &String) -> (r: UsageState)
        requires
            self.wf(),
        ensures
            r == self.state_of(x@, rt@),
    {
        let mut i: usize = 0;
        while i < self.exports.len()
            invariant
                0 <= i <= self.exports.len(),
                self.wf(),
                forall|j: int| 0 <= j < i ==> (#[trigger] self.exports@[j]).name@ != x@,
            decreases self.exports.len() - i,
        {
            if self.exports[i].name == *x {
                proof {
                    self.lemma_state_of(i as int);
                }
                return get_usage(&self.exports[i].usage, rt);
            }
            i = i + 1;
        }
        UsageState::Unknown
    }

    /// Sets the state of `x` in `rt`, giving `x` an entry if it had none.
    pub fn set_used(&mut self, x: &String, rt: &String, state: UsageState)
        requires
            old(self).wf(),
        ensures
            final(self).wf(),
            final(self).other_exports == old(self).other_exports,
            forall|y: Seq<char>| #[trigger] final(self).is_named(y) == (old(self).is_named(y) || y == x@),
            forall|y: Seq<char>, r: Seq<char>| #[trigger] final(self).state_of(y, r) == if y == x@ && r == rt@ {
                state
            } else {
                old(self).state_of(y, r)
            },
    {
        let i = self.ensure_owned_export_info(x);
        let ghost mid = *self;
        set_usage(&mut self.exports[i].usage, rt, state);
        proof {
            assert forall|j: int| 0 <= j < self.exports.len() && j != i implies #[trigger] self.exports@[j] == mid.exports@[j] by {}
            assert forall|a: int, b: int|
                0 <= a < self.exports.len() && 0 <= b < self.exports.len() && a != b implies (#[trigger] self.exports@[a]).name@
                    != (#[trigger] self.exports@[b]).name@ by {
                assert(mid.exports@[a].name@ != mid.exports@[b].name@);
            }
            assert forall|j: int| 0 <= j < self.exports.len() implies usage_wf((#[trigger] self.exports@[j]).usage@) by {
                if j != i {
                    assert(self.exports@[j] == mid.exports@[j]);
                }
            }
            assert forall|y: Seq<char>| #[trigger] self.is_named(y) == mid.is_named(y) by {
                if mid.is_named(y) {
                    let j = choose|j: int| 0 <= j < mid.exports.len() && (#[trigger] mid.exports@[j]).name@ == y;
                    assert(self.exports@[j].name@ == y);
                }
                if self.is_named(y) {
                    let j = choose|j: int| 0 <= j < self.exports.len() && (#[trigger] self.exports@[j]).name@ == y;
                    assert(mid.exports@[j].name@ == y);
                }
            }
            assert forall|y: Seq<char>, r: Seq<char>| #[trigger] self.state_of(y, r) == if y == x@ && r == rt@ {
                state
            } else {
                old(self).state_of(y, r)
            } by {
                assert(mid.state_of(y, r) == old(self).state_of(y, r));
                if mid.is_named(y) {
                    let j = choose|j: int| 0 <= j < mid.exports.len() && (#[trigger] mid.exports@[j]).name@ == y;
                    mid.lemma_state_of(j);
                    self.lemma_state_of(j);
                    if j != i {
                        assert(self.exports@[j] == mid.exports@[j]);
                    } else {
                        assert(y == x@);
                    }
                } else {
                    assert(y != x@);
                    assert(!self.is_named(y));
                }
            }
        }
    }
}

} // verus!
