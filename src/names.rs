//! Export names held in vectors, read as sets, and ordered by code point.
use vstd::prelude::*;
use vstd::string::*;

verus! {

/// The set of names that a vector of strings holds.
pub open spec fn name_set(v: Seq<String>) -> Set<Seq<char>> {
    Set::new(|x: Seq<char>| exists|i: int| 0 <= i < v.len() && (#[trigger] v[i])@ == x)
}

/// The set of names that occur anywhere in a list of export paths.
pub open spec fn path_names(paths: Seq<Vec<String>>) -> Set<Seq<char>> {
    Set::new(
        |x: Seq<char>|
            exists|i: int| 0 <= i < paths.len() && name_set((#[trigger] paths[i])@).contains(x),
    )
}

/// No name occurs twice.
pub open spec fn distinct_names(v: Seq<String>) -> bool {
    forall|i: int, j: int| 0 <= i < v.len() && 0 <= j < v.len() && i != j ==> v[i]@ != v[j]@
}

/// Lexicographic order on code points: `a` is a proper prefix of `b`, or the first
/// differing character of `a` is smaller.
pub open spec fn name_lt(a: Seq<char>, b: Seq<char>) -> bool {
    exists|k: int|
        #![trigger a.subrange(0, k)]
        0 <= k <= a.len() && k <= b.len() && a.subrange(0, k) == b.subrange(0, k) && ((k
            == a.len() && k < b.len()) || (k < a.len() && k < b.len() && (a[k] as u32) < (b[k] as u32)))
}

/// Each name is strictly smaller than the next one.
pub open spec fn sorted_names(v: Seq<String>) -> bool {
    forall|i: int| 0 <= i < v.len() - 1 ==> name_lt(v[i]@, (#[trigger] v[i + 1])@)
}

/// A list that is sorted and without repeats, holding exactly `s`.
pub open spec fn is_sorted_listing(v: Seq<String>, s: Set<Seq<char>>) -> bool {
    &&& name_set(v) == s
    &&& sorted_names(v)
    &&& distinct_names(v)
}

/// Copies a string.
pub fn copy_name(s: &String) -> (r: String)
    ensures
        r@ == s@,
{
    s.clone()
}

/// Whether `s` is among the names in `v`.
pub fn contains_name(v: &Vec<String>, s: &String) -> (r: bool)
    ensures
        r == name_set(v@).contains(s@),
{
    let mut i: usize = 0;
    while i < v.len()
        invariant
            0 <= i <= v.len(),
            forall|j: int| 0 <= j < i ==> (#[trigger] v@[j])@ != s@,
        decreases v.len() - i,
    {
        if v[i] == *s {
            assert(v@[i as int]@ == s@);
            return true;
        }
        i = i + 1;
    }
    false
}

/// Adds `s` to the names in `v`, unless it is there already.
pub fn insert_name(v: &mut Vec<String>, s: &String)
    ensures
        name_set(final(v)@) == name_set(old(v)@).insert(s@),
        distinct_names(old(v)@) ==> distinct_names(final(v)@),
{
    if !contains_name(v, s) {
        v.push(copy_name(s));
        assert(name_set(final(v)@) =~= name_set(old(v)@).insert(s@)) by {
            assert(final(v)@[old(v)@.len() as int]@ == s@);
            assert forall|x: Seq<char>| name_set(old(v)@).contains(x) implies name_set(
                final(v)@,
            ).contains(x) by {
                let i = choose|i: int| 0 <= i < old(v)@.len() && (#[trigger] old(v)@[i])@ == x;
                assert(final(v)@[i] == old(v)@[i]);
            }
        }
    } else {
        assert(name_set(old(v)@).insert(s@) =~= name_set(old(v)@));
    }
}

/// Adds every name of `src` to `target`.
pub fn extend_names(target: &mut Vec<String>, src: &Vec<String>)
    ensures
        name_set(final(target)@) == name_set(old(target)@).union(name_set(src@)),
        distinct_names(old(target)@) ==> distinct_names(final(target)@),
{
    let mut i: usize = 0;
    while i < src.len()
        invariant
            0 <= i <= src.len(),
            name_set(target@) == name_set(old(target)@).union(name_set(src@.subrange(0, i as int))),
            distinct_names(old(target)@) ==> distinct_names(target@),
        decreases src.len() - i,
    {
        insert_name(target, &src[i]);
        proof {
            lemma_name_set_prefix_step(src@, i as int);
        }
        i = i + 1;
    }
    assert(src@.subrange(0, src.len() as int) =~= src@);
}

/// Compares two names by code point: negative when `a` comes first, zero when they
/// are equal, positive when `b` comes first.
pub fn compare_names(a: &String, b: &String) -> (r: i8)
    ensures
        r < 0 ==> name_lt(a@, b@),
        r == 0 <==> a@ == b@,
        r > 0 ==> name_lt(b@, a@),
{
    let sa = a.as_str();
    let sb = b.as_str();
    let la = sa.unicode_len();
    let lb = sb.unicode_len();
    let mut k: usize = 0;
    while k < la && k < lb
        invariant
            la == a@.len(),
            lb == b@.len(),
            sa@ == a@,
            sb@ == b@,
            0 <= k <= la,
            k <= lb,
            a@.subrange(0, k as int) == b@.subrange(0, k as int),
        decreases la - k,
    {
        let ca = sa.get_char(k);
        let cb = sb.get_char(k);
        if (ca as u32) < (cb as u32) {
            assert(name_lt(a@, b@)) by {
                assert(b@[k as int] == cb);
            }
            return -1;
        }
        if (cb as u32) < (ca as u32) {
            assert(name_lt(b@, a@)) by {
                assert(a@[k as int] == ca);
            }
            return 1;
        }
        assert(ca == cb);
        assert(a@.subrange(0, k + 1) =~= a@.subrange(0, k as int).push(ca));
        assert(b@.subrange(0, k + 1) =~= b@.subrange(0, k as int).push(cb));
        k = k + 1;
    }
    if la < lb {
        assert(a@.subrange(0, la as int) =~= a@);
        assert(name_lt(a@, b@)) by {
            assert(0 <= k <= a@.len() && k <= b@.len() && a@.subrange(0, k as int) == b@.subrange(0, k as int)
                && k == a@.len() && k < b@.len());
        }
        -1
    } else if lb < la {
        assert(b@.subrange(0, lb as int) =~= b@);
        assert(name_lt(b@, a@)) by {
            assert(0 <= k <= b@.len() && k <= a@.len() && b@.subrange(0, k as int) == a@.subrange(0, k as int)
                && k == b@.len() && k < a@.len());
        }
        1
    } else {
        assert(a@.subrange(0, la as int) =~= a@);
        assert(b@.subrange(0, lb as int) =~= b@);
        0
    }
}

/// Inserts `s` into a sorted list without repeats, at its place, unless it is there.
pub fn insert_sorted(v: &mut Vec<String>, s: &String)
    requires
        sorted_names(old(v)@),
        distinct_names(old(v)@),
    ensures
        is_sorted_listing(final(v)@, name_set(old(v)@).insert(s@)),
{
    if contains_name(v, s) {
        assert(name_set(v@).insert(s@) =~= name_set(v@));
        return;
    }
    let mut p: usize = 0;
    let mut greater = false;
    while p < v.len() && !greater
        invariant
            0 <= p <= v.len(),
            !name_set(v@).contains(s@),
            v@ == old(v)@,
            p > 0 ==> name_lt(v@[p - 1]@, s@),
            greater ==> p < v.len() && name_lt(s@, v@[p as int]@) && v@[p as int]@ != s@,
        decreases v.len() - p, if greater { 0int } else { 1int },
    {
        let c = compare_names(&v[p], s);
        if c > 0 {
            greater = true;
        } else {
            p = p + 1;
        }
    }
    let ghost before = v@;
    v.insert(p, copy_name(s));
    proof {
        assert(v@ == before.insert(p as int, v@[p as int]));
        assert(v@[p as int]@ == s@);
        assert forall|j: int| 0 <= j < p implies (#[trigger] v@[j]) == before[j] by {}
        assert forall|j: int| p < j < v@.len() implies (#[trigger] v@[j]) == before[j - 1] by {}
        assert forall|j: int| 0 <= j < before.len() implies (#[trigger] before[j])@ != s@ by {}
        assert(sorted_names(v@)) by {
            assert forall|i: int| 0 <= i < v@.len() - 1 implies name_lt(
                v@[i]@,
                (#[trigger] v@[i + 1])@,
            ) by {
                if i + 1 < p {
                    assert(v@[i + 1] == before[i + 1]);
                    assert(name_lt(before[i]@, before[i + 1]@));
                } else if i + 1 == p {
                } else if i == p {
                } else {
                    assert(v@[i] == before[i - 1]);
                    assert(name_lt(before[i - 1]@, (before[i - 1 + 1])@));
                }
            }
        }
        assert(distinct_names(v@)) by {
            assert forall|i: int, j: int|
                0 <= i < v@.len() && 0 <= j < v@.len() && i != j implies v@[i]@ != v@[j]@ by {
                let bi = if i < p { i } else { i - 1 };
                let bj = if j < p { j } else { j - 1 };
                if i != p && j != p {
                    assert(v@[i] == before[bi]);
                    assert(v@[j] == before[bj]);
                } else if i == p {
                    assert(v@[j] == before[bj]);
                } else {
                    assert(v@[i] == before[bi]);
                }
            }
        }
        assert(name_set(v@) =~= name_set(before).insert(s@)) by {
            assert forall|x: Seq<char>| name_set(before).contains(x) implies name_set(v@).contains(x) by {
                let j = choose|j: int| 0 <= j < before.len() && (#[trigger] before[j])@ == x;
                if j < p {
                    assert(v@[j] == before[j]);
                } else {
                    assert(v@[j + 1] == before[j]);
                }
            }
        }
    }
}

/// Adds every name of `src` to a sorted list without repeats, keeping it so.
pub fn merge_sorted(target: &mut Vec<String>, src: &Vec<String>)
    requires
        sorted_names(old(target)@),
        distinct_names(old(target)@),
    ensures
        is_sorted_listing(final(target)@, name_set(old(target)@).union(name_set(src@))),
{
    let mut i: usize = 0;
    while i < src.len()
        invariant
            0 <= i <= src.len(),
            sorted_names(target@),
            distinct_names(target@),
            name_set(target@) == name_set(old(target)@).union(name_set(src@.subrange(0, i as int))),
        decreases src.len() - i,
    {
        insert_sorted(target, &src[i]);
        proof {
            lemma_name_set_prefix_step(src@, i as int);
        }
        i = i + 1;
    }
    assert(src@.subrange(0, src.len() as int) =~= src@);
}

/// The names of `v`, sorted, each once.
pub fn sorted_listing(v: &Vec<String>) -> (r: Vec<String>)
    ensures
        is_sorted_listing(r@, name_set(v@)),
{
    let mut r: Vec<String> = Vec::new();
    assert(name_set(r@) =~= Set::empty());
    merge_sorted(&mut r, v);
    assert(Set::<Seq<char>>::empty().union(name_set(v@)) =~= name_set(v@));
    r
}

/// The names of a prefix grow by one element at a time.
pub proof fn lemma_name_set_prefix_step(v: Seq<String>, i: int)
    requires
        0 <= i < v.len(),
    ensures
        name_set(v.subrange(0, i + 1)) == name_set(v.subrange(0, i)).insert(v[i]@),
{
    assert(v.subrange(0, i + 1)[i] == v[i]);
    assert forall|x: Seq<char>| #[trigger] name_set(v.subrange(0, i)).contains(x) implies name_set(
        v.subrange(0, i + 1),
    ).contains(x) by {
        let j = choose|j: int| 0 <= j < i && (#[trigger] v.subrange(0, i)[j])@ == x;
        assert(v.subrange(0, i + 1)[j] == v.subrange(0, i)[j]);
    }
    assert forall|x: Seq<char>| #[trigger]
        name_set(v.subrange(0, i + 1)).contains(x) && x != v[i]@ implies name_set(
        v.subrange(0, i),
    ).contains(x) by {
        let j = choose|j: int| 0 <= j < i + 1 && (#[trigger] v.subrange(0, i + 1)[j])@ == x;
        assert(v.subrange(0, i + 1)[j] == v.subrange(0, i)[j]);
    }
    assert(name_set(v.subrange(0, i + 1)) =~= name_set(v.subrange(0, i)).insert(v[i]@));
}

/// A list holds no name exactly when it is empty.
pub proof fn lemma_name_set_empty(v: Seq<String>)
    ensures
        (name_set(v) == Set::<Seq<char>>::empty()) == (v.len() == 0),
{
    if v.len() == 0 {
        assert(name_set(v) =~= Set::<Seq<char>>::empty());
    } else {
        assert(name_set(v).contains(v[0]@));
    }
}

/// No name is smaller than itself.
pub proof fn lemma_name_lt_irrefl(a: Seq<char>, b: Seq<char>)
    requires
        name_lt(a, b),
    ensures
        a != b,
{
    let k = choose|k: int|
        #![trigger a.subrange(0, k)]
        0 <= k <= a.len() && k <= b.len() && a.subrange(0, k) == b.subrange(0, k) && ((k == a.len() && k < b.len()) || (k
            < a.len() && k < b.len() && (a[k] as u32) < (b[k] as u32)));
}

/// The order on names is transitive.
pub proof fn lemma_name_lt_trans(a: Seq<char>, b: Seq<char>, c: Seq<char>)
    requires
        name_lt(a, b),
        name_lt(b, c),
    ensures
        name_lt(a, c),
{
    let k1 = choose|k: int|
        #![trigger a.subrange(0, k)]
        0 <= k <= a.len() && k <= b.len() && a.subrange(0, k) == b.subrange(0, k) && ((k == a.len() && k < b.len()) || (k
            < a.len() && k < b.len() && (a[k] as u32) < (b[k] as u32)));
    let k2 = choose|k: int|
        #![trigger b.subrange(0, k)]
        0 <= k <= b.len() && k <= c.len() && b.subrange(0, k) == c.subrange(0, k) && ((k == b.len() && k < c.len()) || (k
            < b.len() && k < c.len() && (b[k] as u32) < (c[k] as u32)));
    let k = if k1 <= k2 { k1 } else { k2 };
    assert(a.subrange(0, k) =~= b.subrange(0, k)) by {
        assert forall|i: int| 0 <= i < k implies a[i] == b[i] by {
            assert(a.subrange(0, k1)[i] == b.subrange(0, k1)[i]);
        }
    }
    assert(b.subrange(0, k) =~= c.subrange(0, k)) by {
        assert forall|i: int| 0 <= i < k implies b[i] == c[i] by {
            assert(b.subrange(0, k2)[i] == c.subrange(0, k2)[i]);
        }
    }
    assert(a.subrange(0, k) == c.subrange(0, k));
    if k1 < k2 {
        assert(b[k1] == c[k1]) by {
            assert(b.subrange(0, k2)[k1] == c.subrange(0, k2)[k1]);
        }
    } else if k2 < k1 {
        assert(a[k2] == b[k2]) by {
            assert(a.subrange(0, k1)[k2] == b.subrange(0, k1)[k2]);
        }
    }
}

} // verus!
