//! Collection of the share entries that a build resolves: which provided requests
//! match a module request, under which share key, at which version.
use vstd::prelude::*;
use vstd::string::*;
use crate::manifest::{JsonMember, JsonValue};
use crate::names::{compare_names, copy_name, name_lt};

verus! {

/// The version a provided module was configured with.
pub enum ProvideVersion {
    Version(String),
    False,
}

/// How a module is provided to the share scope.
pub struct ProvideOptions {
    pub share_key: String,
    pub share_scope: String,
    pub version: Option<ProvideVersion>,
}

pub struct CollectShareEntryPluginOptions {
    pub provides: Vec<(String, ProvideOptions)>,
    pub filename: Option<String>,
}

/// A provided request, with whether it is a prefix (ends with `/`).
pub struct CollectShareEntryMeta {
    pub request: String,
    pub share_key: String,
    pub share_scope: String,
    pub is_prefix: bool,
    /// The configured version, where one is given.
    pub version: Option<String>,
}

/// A resolved resource of a share key, at a version.
pub struct CollectedShareRequest {
    pub request: String,
    pub version: String,
}

/// What was collected under one share key.
pub struct CollectShareEntryRecord {
    pub share_key: String,
    pub share_scope: String,
    pub requests: Vec<CollectedShareRequest>,
}

/// The share key, scope and configured version that a module request resolves to.
pub struct ShareMatch {
    pub share_key: String,
    pub share_scope: String,
    pub version: Option<String>,
}

pub struct CollectShareEntryPlugin {
    pub provides: Vec<CollectShareEntryMeta>,
    pub resolved_entries: Vec<CollectShareEntryRecord>,
    pub filename: String,
}

/// A relative request: `.` or `..`, alone or followed by `/`.
pub open spec fn relative_request(s: Seq<char>) -> bool {
    ||| s =~= seq!['.']
    ||| s =~= seq!['.', '.']
    ||| (s.len() >= 2 && s[0] == '.' && s[1] == '/')
    ||| (s.len() >= 3 && s[0] == '.' && s[1] == '.' && s[2] == '/')
}

pub open spec fn ascii_letter(c: char) -> bool {
    ('A' <= c && c <= 'Z') || ('a' <= c && c <= 'z')
}

/// An absolute request: starting with `/`, with a drive such as `C:\`, or with `\\`.
pub open spec fn absolute_request(s: Seq<char>) -> bool {
    ||| (s.len() >= 1 && s[0] == '/')
    ||| (s.len() >= 3 && ascii_letter(s[0]) && s[1] == ':' && s[2] == '\\')
    ||| (s.len() >= 2 && s[0] == '\\' && s[1] == '\\')
}

/// Relies on `regex::Regex::is_match` with the pattern `^(?:\.\.?(?:/|$))`: a match at
/// the start of `.` or `..` followed by `/` or by the end of the text.
#[verifier::external_body]
fn is_relative_request(s: &str) -> (r: bool)
    ensures
        r == relative_request(s@),
{
    regex::Regex::new(r"^(?:\.\.?(?:/|$))").map(|re| re.is_match(s)).unwrap_or(false)
}

/// Relies on `regex::Regex::is_match` with the pattern `^(?:/|[A-Za-z]:\\|\\\\)`: a match
/// at the start of `/`, of an ASCII letter with `:\`, or of `\\`.
#[verifier::external_body]
fn is_absolute_request(s: &str) -> (r: bool)
    ensures
        r == absolute_request(s@),
{
    regex::Regex::new(r"^(?:/|[A-Za-z]:\\|\\\\)").map(|re| re.is_match(s)).unwrap_or(false)
}

/// Whether `s` starts with `p`.
pub fn starts_with(s: &String, p: &String) -> (r: bool)
    ensures
        r == (p@.len() <= s@.len() && s@.subrange(0, p@.len() as int) == p@),
{
    let ss = s.as_str();
    let ps = p.as_str();
    let ls = ss.unicode_len();
    let lp = ps.unicode_len();
    if lp > ls {
        return false;
    }
    let mut i: usize = 0;
    while i < lp
        invariant
            lp <= ls,
            ls == s@.len(),
            lp == p@.len(),
            ss@ == s@,
            ps@ == p@,
            0 <= i <= lp,
            s@.subrange(0, i as int) == p@.subrange(0, i as int),
        decreases lp - i,
    {
        if ss.get_char(i) != ps.get_char(i) {
            assert(s@.subrange(0, lp as int)[i as int] != p@[i as int]);
            return false;
        }
        assert(s@.subrange(0, i + 1) =~= s@.subrange(0, i as int).push(s@[i as int]));
        assert(p@.subrange(0, i + 1) =~= p@.subrange(0, i as int).push(p@[i as int]));
        i = i + 1;
    }
    assert(p@.subrange(0, lp as int) =~= p@);
    true
}

/// Whether `s` ends with `/`.
pub fn ends_with_slash(s: &String) -> (r: bool)
    ensures
        r == (s@.len() > 0 && s@.last() == '/'),
{
    let ss = s.as_str();
    let n = ss.unicode_len();
    n > 0 && ss.get_char(n - 1) == '/'
}

/// The configured version, where it is a version string.
pub fn configured_version(provide: &ProvideOptions) -> (r: Option<String>)
    ensures
        (provide.version is Some && provide.version->Some_0 is Version) ==> (r is Some && r->Some_0@
            == provide.version->Some_0->Version_0@),
        !(provide.version is Some && provide.version->Some_0 is Version) ==> r is None,
{
    match &provide.version {
        Some(ProvideVersion::Version(v)) => Some(copy_name(v)),
        _ => None,
    }
}

/// The version of a collected resource: the configured version where there is one,
/// else the non-empty `version` of the package description.
pub fn infer_version(configured: &Option<String>, description_version: &Option<String>) -> (r: Option<String>)
    ensures
        configured is Some ==> (r is Some && r->Some_0@ == configured->Some_0@),
        configured is None && description_version is Some && description_version->Some_0@.len() > 0 ==> (r is Some
            && r->Some_0@ == description_version->Some_0@),
        configured is None && !(description_version is Some && description_version->Some_0@.len() > 0) ==> r is None,
{
    match configured {
        Some(v) => Some(copy_name(v)),
        None => match description_version {
            Some(d) => {
                if d.as_str().unicode_len() > 0 {
                    Some(copy_name(d))
                } else {
                    None
                }
            },
            None => None,
        },
    }
}

/// The entry of `v` for request `k` is at `i`, and none later is for `k`.
pub open spec fn last_meta_for(v: Seq<CollectShareEntryMeta>, k: Seq<char>, i: int) -> bool {
    &&& 0 <= i < v.len()
    &&& v[i].request@ == k
    &&& forall|j: int| i < j < v.len() ==> (#[trigger] v[j]).request@ != k
}

/// The first entry of `v` whose request `request` starts with is at `i`.
pub open spec fn first_prefix_at(v: Seq<CollectShareEntryMeta>, request: Seq<char>, i: int) -> bool {
    &&& 0 <= i < v.len()
    &&& is_prefix_of(v[i].request@, request)
    &&& forall|j: int| 0 <= j < i ==> !is_prefix_of((#[trigger] v[j]).request@, request)
}

/// Both versions are absent, or both present and equal.
pub open spec fn same_version(a: Option<String>, b: Option<String>) -> bool {
    &&& a is Some <==> b is Some
    &&& a is Some ==> a->Some_0@ == b->Some_0@
}

pub open spec fn is_prefix_of(p: Seq<char>, s: Seq<char>) -> bool {
    p.len() <= s.len() && s.subrange(0, p.len() as int) == p
}

/// The records `new` are `old` with the pair `(req, ver)` recorded under `key`, in
/// scope `scope`.
pub open spec fn record_effect(
    old: Seq<CollectShareEntryRecord>,
    new: Seq<CollectShareEntryRecord>,
    key: Seq<char>,
    scope: Seq<char>,
    req: Seq<char>,
    ver: Seq<char>,
) -> bool {
    &&& forall|k: Seq<char>| #[trigger] has_record(new, k) == (has_record(old, k) || k == key)
    &&& exists|i: int|
        0 <= i < new.len() && (#[trigger] new[i]).share_key@ == key && new[i].share_scope@ == scope && request_set(new[i].requests@)
            == (if has_record(old, key) {
            request_set(old[choose|j: int| 0 <= j < old.len() && (#[trigger] old[j]).share_key@ == key].requests@)
        } else {
            Set::empty()
        }).insert((req, ver))
    &&& forall|i: int|
        0 <= i < old.len() && (#[trigger] old[i]).share_key@ != key ==> exists|j: int| 0 <= j < new.len() && new[j] == old[i]
}

/// `m` is the share key, scope and version of `meta`, with `suffix` appended to the key.
pub open spec fn match_of(m: ShareMatch, meta: CollectShareEntryMeta, suffix: Seq<char>) -> bool {
    &&& m.share_key@ == meta.share_key@ + suffix
    &&& m.share_scope@ == meta.share_scope@
    &&& same_version(m.version, meta.version)
}

pub fn copy_meta(m: &CollectShareEntryMeta) -> (r: CollectShareEntryMeta)
    ensures
        r.request@ == m.request@,
        r.share_key@ == m.share_key@,
        r.share_scope@ == m.share_scope@,
        r.is_prefix == m.is_prefix,
        same_version(r.version, m.version),
{
    CollectShareEntryMeta {
        request: copy_name(&m.request),
        share_key: copy_name(&m.share_key),
        share_scope: copy_name(&m.share_scope),
        is_prefix: m.is_prefix,
        version: match &m.version {
            Some(v) => Some(copy_name(v)),
            None => None,
        },
    }
}

fn share_match(meta: &CollectShareEntryMeta, suffix: &str) -> (r: ShareMatch)
    ensures
        match_of(r, *meta, suffix@),
{
    let key = copy_name(&meta.share_key).concat(suffix);
    ShareMatch {
        share_key: key,
        share_scope: copy_name(&meta.share_scope),
        version: match &meta.version {
            Some(v) => Some(copy_name(v)),
            None => None,
        },
    }
}

/// The (request, version) pairs held in `v`.
pub open spec fn request_set(v: Seq<CollectedShareRequest>) -> Set<(Seq<char>, Seq<char>)> {
    Set::new(|p: (Seq<char>, Seq<char>)| exists|i: int| 0 <= i < v.len() && p == ((#[trigger] v[i]).request@, v[i].version@))
}

/// Order on (request, version) pairs: by request, then by version.
pub open spec fn request_lt(a: CollectedShareRequest, b: CollectedShareRequest) -> bool {
    name_lt(a.request@, b.request@) || (a.request@ == b.request@ && name_lt(a.version@, b.version@))
}

/// Each pair is held once and strictly before the next.
pub open spec fn requests_sorted(v: Seq<CollectedShareRequest>) -> bool {
    &&& forall|i: int| 0 <= i < v.len() - 1 ==> request_lt(v[i], #[trigger] v[i + 1])
    &&& forall|i: int, j: int|
        0 <= i < v.len() && 0 <= j < v.len() && i != j ==> ((#[trigger] v[i]).request@, v[i].version@) != (
        (#[trigger] v[j]).request@, v[j].version@)
}

/// Compares two pairs: negative, zero or positive as `a` comes first, equals or comes after `b`.
pub fn compare_requests(a: &CollectedShareRequest, b: &CollectedShareRequest) -> (r: i8)
    ensures
        r < 0 ==> request_lt(*a, *b),
        r == 0 <==> (a.request@ == b.request@ && a.version@ == b.version@),
        r > 0 ==> request_lt(*b, *a),
{
    let c = compare_names(&a.request, &b.request);
    if c != 0 {
        c
    } else {
        compare_names(&a.version, &b.version)
    }
}

/// Adds a pair to a sorted list without repeats, at its place, unless it is there.
pub fn insert_request(v: &mut Vec<CollectedShareRequest>, x: CollectedShareRequest)
    requires
        requests_sorted(old(v)@),
    ensures
        requests_sorted(final(v)@),
        request_set(final(v)@) == request_set(old(v)@).insert((x.request@, x.version@)),
{
    let mut p: usize = 0;
    let mut stop = false;
    while p < v.len() && !stop
        invariant
            0 <= p <= v.len(),
            v@ == old(v)@,
            requests_sorted(old(v)@),
            forall|j: int| 0 <= j < p ==> ((#[trigger] v@[j]).request@, v@[j].version@) != (x.request@, x.version@),
            p > 0 ==> request_lt(v@[p - 1], x),
            stop ==> p < v.len() && request_lt(x, v@[p as int]),
        decreases v.len() - p, if stop { 0int } else { 1int },
    {
        let c = compare_requests(&v[p], &x);
        if c == 0 {
            assert(request_set(v@).insert((x.request@, x.version@)) =~= request_set(v@));
            return;
        }
        if c > 0 {
            stop = true;
        } else {
            p = p + 1;
        }
    }
    let ghost before = v@;
    let ghost xv = x;
    proof {
        // pairs after `p` differ from `x`: the list is strictly ordered pairwise
        assert forall|j: int| p <= j < before.len() implies ((#[trigger] before[j]).request@, before[j].version@) != (xv.request@, xv.version@) by {
            if j == p {
            } else {
                lemma_request_chain(before, p as int, j, xv);
            }
        }
    }
    v.insert(p, x);
    proof {
        assert(v@ == before.insert(p as int, xv));
        assert forall|j: int| 0 <= j < p implies #[trigger] v@[j] == before[j] by {}
        assert forall|j: int| p < j < v@.len() implies #[trigger] v@[j] == before[j - 1] by {}
        assert forall|i: int| 0 <= i < v@.len() - 1 implies request_lt(v@[i], #[trigger] v@[i + 1]) by {
            if i + 1 < p {
                assert(v@[i + 1] == before[i + 1]);
                assert(request_lt(before[i], before[i + 1]));
            } else if i + 1 == p {
            } else if i == p {
            } else {
                assert(v@[i] == before[i - 1]);
                assert(request_lt(before[i - 1], before[i - 1 + 1]));
            }
        }
        assert forall|i: int, j: int|
            0 <= i < v@.len() && 0 <= j < v@.len() && i != j implies ((#[trigger] v@[i]).request@, v@[i].version@) != (
            (#[trigger] v@[j]).request@, v@[j].version@) by {
            let bi = if i < p { i } else { i - 1 };
            let bj = if j < p { j } else { j - 1 };
            if i != p && j != p {
                assert(v@[i] == before[bi]);
                assert(v@[j] == before[bj]);
            } else if i == p {
                assert(v@[j] == before[bj]);
            } else {
                assert(v@[i] == before[bi]);
            }
        }
        assert(request_set(v@) =~= request_set(before).insert((xv.request@, xv.version@))) by {
            assert forall|q: (Seq<char>, Seq<char>)| request_set(before).contains(q) implies request_set(v@).contains(q) by {
                let j = choose|j: int| 0 <= j < before.len() && q == ((#[trigger] before[j]).request@, before[j].version@);
                if j < p {
                    assert(v@[j] == before[j]);
                } else {
                    assert(v@[j + 1] == before[j]);
                }
            }
            assert(v@[p as int] == xv);
        }
    }
}

/// In a sorted list, a pair before the one at `p` is before every later one too.
proof fn lemma_request_chain(v: Seq<CollectedShareRequest>, p: int, j: int, x: CollectedShareRequest)
    requires
        requests_sorted(v),
        0 <= p < j < v.len(),
        request_lt(x, v[p]),
    ensures
        request_lt(x, v[j]),
        (v[j].request@, v[j].version@) != (x.request@, x.version@),
    decreases j - p,
{
    lemma_request_lt_trans(x, v[p], v[p + 1]);
    if p + 1 < j {
        lemma_request_chain(v, p + 1, j, x);
    }
    lemma_request_lt_irrefl(x, v[j]);
}

proof fn lemma_request_lt_irrefl(a: CollectedShareRequest, b: CollectedShareRequest)
    requires
        request_lt(a, b),
    ensures
        (a.request@, a.version@) != (b.request@, b.version@),
{
    if a.request@ == b.request@ && a.version@ == b.version@ {
        if name_lt(a.request@, b.request@) {
            crate::names::lemma_name_lt_irrefl(a.request@, b.request@);
        } else {
            crate::names::lemma_name_lt_irrefl(a.version@, b.version@);
        }
    }
}

proof fn lemma_request_lt_trans(a: CollectedShareRequest, b: CollectedShareRequest, c: CollectedShareRequest)
    requires
        request_lt(a, b),
        request_lt(b, c),
    ensures
        request_lt(a, c),
{
    if name_lt(a.request@, b.request@) && name_lt(b.request@, c.request@) {
        crate::names::lemma_name_lt_trans(a.request@, b.request@, c.request@);
    } else if name_lt(a.request@, b.request@) {
    } else if name_lt(b.request@, c.request@) {
    } else {
        crate::names::lemma_name_lt_trans(a.version@, b.version@, c.version@);
    }
}

/// `meta` is matched exactly by its request: not a prefix, neither relative nor absolute.
pub open spec fn exact_meta(meta: CollectShareEntryMeta) -> bool {
    !meta.is_prefix && !relative_request(meta.request@) && !absolute_request(meta.request@)
}

/// The last exactly matched provide for `req` is at `i`.
pub open spec fn exact_at(v: Seq<CollectShareEntryMeta>, req: Seq<char>, i: int) -> bool {
    &&& 0 <= i < v.len()
    &&& exact_meta(v[i]) && v[i].request@ == req
    &&& forall|j: int| i < j < v.len() ==> !(exact_meta(#[trigger] v[j]) && v[j].request@ == req)
}

/// The first prefix provide that `req` starts with is at `i`.
pub open spec fn prefix_at(v: Seq<CollectShareEntryMeta>, req: Seq<char>, i: int) -> bool {
    &&& 0 <= i < v.len()
    &&& v[i].is_prefix && is_prefix_of(v[i].request@, req)
    &&& forall|j: int| 0 <= j < i ==> !((#[trigger] v[j]).is_prefix && is_prefix_of(v[j].request@, req))
}

/// The first non-prefix provide for exactly `req` is at `i`.
pub open spec fn direct_at(v: Seq<CollectShareEntryMeta>, req: Seq<char>, i: int) -> bool {
    &&& 0 <= i < v.len()
    &&& !v[i].is_prefix && v[i].request@ == req
    &&& forall|j: int| 0 <= j < i ==> !(!(#[trigger] v[j]).is_prefix && v[j].request@ == req)
}

/// The first provide of share key `k` is at `j`.
pub open spec fn first_provide_at(v: Seq<CollectShareEntryMeta>, k: Seq<char>, j: int) -> bool {
    &&& 0 <= j < v.len()
    &&& v[j].share_key@ == k
    &&& forall|l: int| 0 <= l < j ==> (#[trigger] v[l]).share_key@ != k
}

/// The record has the scope of the first of the first `n` provides of its key.
pub open spec fn scoped_by_first(v: Seq<CollectShareEntryMeta>, rec: CollectShareEntryRecord, n: int) -> bool {
    exists|j: int| 0 <= j < n && #[trigger] first_provide_at(v, rec.share_key@, j) && v[j].share_scope@ == rec.share_scope@
}

proof fn lemma_scoped_grow(v: Seq<CollectShareEntryMeta>, rec: CollectShareEntryRecord, n: int)
    requires
        scoped_by_first(v, rec, n),
    ensures
        scoped_by_first(v, rec, n + 1),
{
    let j = choose|j: int| 0 <= j < n && #[trigger] first_provide_at(v, rec.share_key@, j) && v[j].share_scope@ == rec.share_scope@;
}

/// The request matches no provide.
pub open spec fn no_request_match(v: Seq<CollectShareEntryMeta>, req: Seq<char>) -> bool {
    &&& !exists|i: int| #[trigger] exact_at(v, req, i)
    &&& !exists|i: int| #[trigger] prefix_at(v, req, i)
    &&& !((relative_request(req) || absolute_request(req)) && exists|i: int| #[trigger] direct_at(v, req, i))
}

/// `m` is what `req` resolves to among the provides `v`: from the last exact provide;
/// else from the first prefix provide, the rest of the request appended to the key;
/// else from the first non-prefix provide of exactly that request.
pub open spec fn request_match(v: Seq<CollectShareEntryMeta>, req: Seq<char>, m: ShareMatch) -> bool {
    if exists|i: int| #[trigger] exact_at(v, req, i) {
        exists|i: int| #[trigger] exact_at(v, req, i) && match_of(m, v[i], Seq::empty())
    } else if exists|i: int| #[trigger] prefix_at(v, req, i) {
        exists|i: int| #[trigger] prefix_at(v, req, i) && match_of(m, v[i], req.subrange(v[i].request@.len() as int, req.len() as int))
    } else {
        exists|i: int| #[trigger] direct_at(v, req, i) && match_of(m, v[i], Seq::empty())
    }
}

/// The version inferred from the configured one and the package description's.
pub open spec fn inferred_version(configured: Option<String>, description: Option<String>) -> Option<Seq<char>> {
    if configured is Some {
        Some(configured->Some_0@)
    } else if description is Some && description->Some_0@.len() > 0 {
        Some(description->Some_0@)
    } else {
        None
    }
}

/// The records' share keys are held once each, and each record's pairs are sorted.
pub open spec fn records_wf(v: Seq<CollectShareEntryRecord>) -> bool {
    &&& forall|i: int, j: int|
        0 <= i < v.len() && 0 <= j < v.len() && i != j ==> (#[trigger] v[i]).share_key@ != (#[trigger] v[j]).share_key@
    &&& forall|i: int| 0 <= i < v.len() ==> requests_sorted((#[trigger] v[i]).requests@)
}

/// Some record is for `k`.
pub open spec fn has_record(v: Seq<CollectShareEntryRecord>, k: Seq<char>) -> bool {
    exists|i: int| 0 <= i < v.len() && (#[trigger] v[i]).share_key@ == k
}

/// `v` renders `r` as `[request, version]` arrays, in order.
pub open spec fn renders_requests(v: JsonValue, r: Seq<CollectedShareRequest>) -> bool {
    &&& v is Array
    &&& v->Array_0.len() == r.len()
    &&& forall|i: int| 0 <= i < r.len() ==> {
        let item = #[trigger] v->Array_0@[i];
        &&& item is Array
        &&& item->Array_0.len() == 2
        &&& item->Array_0@[0] is Str && item->Array_0@[0]->Str_0@ == r[i].request@
        &&& item->Array_0@[1] is Str && item->Array_0@[1]->Str_0@ == r[i].version@
    }
}

/// `m` renders the record `rec`: its key, with its scope and its requests.
pub open spec fn renders_record(m: JsonMember, rec: CollectShareEntryRecord) -> bool {
    &&& m.key@ == rec.share_key@
    &&& m.value is Object
    &&& m.value->Object_0.len() == 2
    &&& m.value->Object_0@[0].key@ == "shareScope"@
    &&& m.value->Object_0@[0].value is Str && m.value->Object_0@[0].value->Str_0@ == rec.share_scope@
    &&& m.value->Object_0@[1].key@ == "requests"@
    &&& renders_requests(m.value->Object_0@[1].value, rec.requests@)
}

impl CollectShareEntryPlugin {
    /// Creates the collector; a provided request that ends with `/` is a prefix.
    pub fn new(options: CollectShareEntryPluginOptions) -> (r: Self)
        ensures
            r.provides.len() == options.provides.len(),
            forall|i: int| 0 <= i < r.provides.len() ==> {
                let m = #[trigger] r.provides@[i];
                let (req, p) = options.provides@[i];
                &&& m.request@ == req@
                &&& m.share_key@ == p.share_key@
                &&& m.share_scope@ == p.share_scope@
                &&& m.is_prefix == (req@.len() > 0 && req@.last() == '/')
                &&& (p.version is Some && p.version->Some_0 is Version) ==> (m.version is Some && m.version->Some_0@
                    == p.version->Some_0->Version_0@)
                &&& !(p.version is Some && p.version->Some_0 is Version) ==> m.version is None
            },
            r.resolved_entries.len() == 0,
            options.filename is Some ==> r.filename@ == options.filename->Some_0@,
            options.filename is None ==> r.filename@ == "collect-share-entries.json"@,
    {
        let mut provides: Vec<CollectShareEntryMeta> = Vec::new();
        let mut i: usize = 0;
        while i < options.provides.len()
            invariant
                0 <= i <= options.provides.len(),
                provides.len() == i,
                forall|j: int| 0 <= j < i ==> {
                    let m = #[trigger] provides@[j];
                    let (req, p) = options.provides@[j];
                    &&& m.request@ == req@
                    &&& m.share_key@ == p.share_key@
                    &&& m.share_scope@ == p.share_scope@
                    &&& m.is_prefix == (req@.len() > 0 && req@.last() == '/')
                    &&& (p.version is Some && p.version->Some_0 is Version) ==> (m.version is Some && m.version->Some_0@
                        == p.version->Some_0->Version_0@)
                    &&& !(p.version is Some && p.version->Some_0 is Version) ==> m.version is None
                },
            decreases options.provides.len() - i,
        {
            let (req, p) = &options.provides[i];
            provides.push(
                CollectShareEntryMeta {
                    request: copy_name(req),
                    share_key: copy_name(&p.share_key),
                    share_scope: copy_name(&p.share_scope),
                    is_prefix: ends_with_slash(req),
                    version: configured_version(p),
                },
            );
            i = i + 1;
        }
        let filename = match &options.filename {
            Some(f) => copy_name(f),
            None => String::from_str("collect-share-entries.json"),
        };
        CollectShareEntryPlugin { provides, resolved_entries: Vec::new(), filename }
    }

    /// At the start of a session, seeds one empty record per share key, with the scope
    /// of the first provide of that key.
    pub fn compilation(&mut self)
        ensures
            final(self).provides == old(self).provides,
            final(self).filename == old(self).filename,
            records_wf(final(self).resolved_entries@),
            forall|i: int| 0 <= i < final(self).resolved_entries.len() ==> (#[trigger] final(self).resolved_entries@[i]).requests.len() == 0,
            forall|k: Seq<char>| #[trigger] has_record(final(self).resolved_entries@, k) == exists|j: int|
                0 <= j < final(self).provides.len() && (#[trigger] final(self).provides@[j]).share_key@ == k,
            forall|i: int| 0 <= i < final(self).resolved_entries.len() ==> #[trigger] scoped_by_first(
                final(self).provides@,
                final(self).resolved_entries@[i],
                final(self).provides.len() as int,
            ),
    {
        let mut entries: Vec<CollectShareEntryRecord> = Vec::new();
        let mut i: usize = 0;
        while i < self.provides.len()
            invariant
                0 <= i <= self.provides.len(),
                *self == *old(self),
                records_wf(entries@),
                forall|a: int| 0 <= a < entries.len() ==> (#[trigger] entries@[a]).requests.len() == 0,
                forall|k: Seq<char>| #[trigger] has_record(entries@, k) == exists|j: int|
                    0 <= j < i && (#[trigger] self.provides@[j]).share_key@ == k,
                forall|a: int| 0 <= a < entries.len() ==> #[trigger] scoped_by_first(self.provides@, entries@[a], i as int),
            decreases self.provides.len() - i,
        {
            let meta = &self.provides[i];
            let mut found = false;
            let mut a: usize = 0;
            while a < entries.len()
                invariant
                    0 <= a <= entries.len(),
                    !found ==> forall|b: int| 0 <= b < a ==> (#[trigger] entries@[b]).share_key@ != meta.share_key@,
                    found ==> has_record(entries@, meta.share_key@),
                decreases entries.len() - a,
            {
                if entries[a].share_key == meta.share_key {
                    found = true;
                }
                a = a + 1;
            }
            let ghost pre = entries@;
            if !found {
                entries.push(
                    CollectShareEntryRecord {
                        share_key: copy_name(&meta.share_key),
                        share_scope: copy_name(&meta.share_scope),
                        requests: Vec::new(),
                    },
                );
                proof {
                    assert forall|l: int| 0 <= l < i implies (#[trigger] self.provides@[l]).share_key@ != meta.share_key@ by {
                        if self.provides@[l].share_key@ == meta.share_key@ {
                            assert(has_record(pre, meta.share_key@));
                        }
                    }
                    assert forall|b: int| 0 <= b < entries.len() implies requests_sorted((#[trigger] entries@[b]).requests@) by {
                        if b < pre.len() {
                            assert(entries@[b] == pre[b]);
                        }
                    }
                    assert forall|k: Seq<char>| #[trigger] has_record(entries@, k) == exists|j: int|
                        0 <= j < i + 1 && (#[trigger] self.provides@[j]).share_key@ == k by {
                        if has_record(pre, k) {
                            let b = choose|b: int| 0 <= b < pre.len() && (#[trigger] pre[b]).share_key@ == k;
                            assert(entries@[b] == pre[b]);
                        }
                        if has_record(entries@, k) && k != meta.share_key@ {
                            let b = choose|b: int| 0 <= b < entries.len() && (#[trigger] entries@[b]).share_key@ == k;
                            assert(entries@[b] == pre[b]);
                            assert(has_record(pre, k));
                        }
                        if k == meta.share_key@ {
                            assert(entries@[pre.len() as int].share_key@ == k);
                        }
                    }
                    assert forall|a2: int| 0 <= a2 < entries.len() implies #[trigger] scoped_by_first(self.provides@, entries@[a2], i + 1) by {
                        if a2 < pre.len() {
                            assert(entries@[a2] == pre[a2]);
                            lemma_scoped_grow(self.provides@, pre[a2], i as int);
                        } else {
                            assert(first_provide_at(self.provides@, entries@[a2].share_key@, i as int));
                        }
                    }
                    assert forall|x: int, y: int|
                        0 <= x < entries.len() && 0 <= y < entries.len() && x != y implies (#[trigger] entries@[x]).share_key@
                            != (#[trigger] entries@[y]).share_key@ by {
                        if x < pre.len() && y < pre.len() {
                            assert(pre[x].share_key@ != pre[y].share_key@);
                        } else if x < pre.len() {
                            assert(entries@[x] == pre[x]);
                        } else {
                            assert(entries@[y] == pre[y]);
                        }
                    }
                }
            } else {
                proof {
                    assert forall|a2: int| 0 <= a2 < entries.len() implies #[trigger] scoped_by_first(self.provides@, entries@[a2], i + 1) by {
                        lemma_scoped_grow(self.provides@, entries@[a2], i as int);
                    }
                    assert forall|k: Seq<char>| #[trigger] has_record(entries@, k) == exists|j: int|
                        0 <= j < i + 1 && (#[trigger] self.provides@[j]).share_key@ == k by {
                        if k == meta.share_key@ {
                            assert(self.provides@[i as int].share_key@ == k);
                        } else if exists|j: int| 0 <= j < i + 1 && (#[trigger] self.provides@[j]).share_key@ == k {
                            let j = choose|j: int| 0 <= j < i + 1 && (#[trigger] self.provides@[j]).share_key@ == k;
                            assert(j < i);
                        }
                    }
                }
            }
            i = i + 1;
        }
        self.resolved_entries = entries;
    }
}

impl CollectShareEntryPlugin {
    /// What a module request resolves to: the last exactly matched provide of that
    /// request; else the first prefix provide it starts with, the rest of the request
    /// appended to the share key; else, for a relative or absolute request, the first
    /// non-prefix provide of exactly that request.
    pub fn match_request(&self, request: &String) -> (r: Option<ShareMatch>)
        ensures
            (exists|i: int| #[trigger] exact_at(self.provides@, request@, i)) ==> r is Some && exists|i: int|
                #[trigger] exact_at(self.provides@, request@, i) && match_of(r->Some_0, self.provides@[i], Seq::empty()),
            !(exists|i: int| #[trigger] exact_at(self.provides@, request@, i)) && (exists|i: int|
                #[trigger] prefix_at(self.provides@, request@, i)) ==> r is Some && exists|i: int|
                #[trigger] prefix_at(self.provides@, request@, i) && match_of(
                    r->Some_0,
                    self.provides@[i],
                    request@.subrange(self.provides@[i].request@.len() as int, request@.len() as int),
                ),
            !(exists|i: int| #[trigger] exact_at(self.provides@, request@, i)) && !(exists|i: int|
                #[trigger] prefix_at(self.provides@, request@, i)) ==> (r is Some <==> ((relative_request(request@)
                || absolute_request(request@)) && exists|i: int| #[trigger] direct_at(self.provides@, request@, i))),
            !(exists|i: int| #[trigger] exact_at(self.provides@, request@, i)) && !(exists|i: int|
                #[trigger] prefix_at(self.provides@, request@, i)) && r is Some ==> exists|i: int|
                #[trigger] direct_at(self.provides@, request@, i) && match_of(r->Some_0, self.provides@[i], Seq::empty()),
            r is None <==> no_request_match(self.provides@, request@),
            r is Some ==> request_match(self.provides@, request@, r->Some_0),
    {
        proof {
            reveal_strlit("");
        }
        let n = self.provides.len();
        // exact match: the last such provide wins
        let mut exact: Option<usize> = None;
        let mut i: usize = 0;
        while i < n
            invariant
                0 <= i <= n,
                n == self.provides.len(),
                exact matches Some(e) ==> e < i && exact_meta(self.provides@[e as int]) && self.provides@[e as int].request@
                    == request@ && forall|j: int| e < j < i ==> !(exact_meta(#[trigger] self.provides@[j])
                    && self.provides@[j].request@ == request@),
                exact is None ==> forall|j: int| 0 <= j < i ==> !(exact_meta(#[trigger] self.provides@[j])
                    && self.provides@[j].request@ == request@),
            decreases n - i,
        {
            let m = &self.provides[i];
            if !m.is_prefix && m.request == *request && !is_relative_request(m.request.as_str())
                && !is_absolute_request(m.request.as_str()) {
                exact = Some(i);
            }
            i = i + 1;
        }
        match exact {
            Some(e) => {
                assert(exact_at(self.provides@, request@, e as int));
                return Some(share_match(&self.provides[e], ""));
            },
            None => {},
        }
        assert(!exists|k: int| #[trigger] exact_at(self.provides@, request@, k));
        let mut i: usize = 0;
        while i < n
            invariant
                0 <= i <= n,
                n == self.provides.len(),
                forall|j: int| 0 <= j < i ==> !((#[trigger] self.provides@[j]).is_prefix && is_prefix_of(self.provides@[j].request@, request@)),
                !exists|k: int| #[trigger] exact_at(self.provides@, request@, k),
            decreases n - i,
        {
            let m = &self.provides[i];
            if m.is_prefix && starts_with(request, &m.request) {
                let rest = request.as_str().substring_char(m.request.as_str().unicode_len(), request.as_str().unicode_len());
                assert(prefix_at(self.provides@, request@, i as int));
                return Some(share_match(m, rest));
            }
            i = i + 1;
        }
        assert(!exists|k: int| #[trigger] prefix_at(self.provides@, request@, k));
        if is_relative_request(request.as_str()) || is_absolute_request(request.as_str()) {
            let mut i: usize = 0;
            while i < n
                invariant
                    0 <= i <= n,
                    n == self.provides.len(),
                    forall|j: int| 0 <= j < i ==> !(!(#[trigger] self.provides@[j]).is_prefix && self.provides@[j].request@ == request@),
                    !exists|k: int| #[trigger] exact_at(self.provides@, request@, k),
                    !exists|k: int| #[trigger] prefix_at(self.provides@, request@, k),
                    relative_request(request@) || absolute_request(request@),
                    ""@ == Seq::<char>::empty(),
                decreases n - i,
            {
                let m = &self.provides[i];
                if !m.is_prefix && m.request == *request {
                    assert(direct_at(self.provides@, request@, i as int));
                    return Some(share_match(m, ""));
                }
                i = i + 1;
            }
            assert(!exists|k: int| #[trigger] direct_at(self.provides@, request@, k));
        }
        None
    }

    /// Records that `request` was resolved under `share_key` at `version`, with the
    /// given scope.
    pub fn record_entry(&mut self, share_key: String, share_scope: String, request: String, version: String)
        requires
            records_wf(old(self).resolved_entries@),
        ensures
            records_wf(final(self).resolved_entries@),
            final(self).provides == old(self).provides,
            final(self).filename == old(self).filename,
            forall|k: Seq<char>| #[trigger] has_record(final(self).resolved_entries@, k) == (has_record(
                old(self).resolved_entries@,
                k,
            ) || k == share_key@),
            exists|i: int|
                0 <= i < final(self).resolved_entries.len() && (#[trigger] final(self).resolved_entries@[i]).share_key@ == share_key@
                    && final(self).resolved_entries@[i].share_scope@ == share_scope@ && request_set(
                    final(self).resolved_entries@[i].requests@,
                ) == (if has_record(old(self).resolved_entries@, share_key@) {
                    request_set(
                        old(self).resolved_entries@[choose|j: int|
                            0 <= j < old(self).resolved_entries.len() && (#[trigger] old(self).resolved_entries@[j]).share_key@
                                == share_key@].requests@,
                    )
                } else {
                    Set::empty()
                }).insert((request@, version@)),
            forall|i: int|
                0 <= i < old(self).resolved_entries.len() && (#[trigger] old(self).resolved_entries@[i]).share_key@ != share_key@
                    ==> exists|j: int| 0 <= j < final(self).resolved_entries.len() && final(self).resolved_entries@[j]
                    == old(self).resolved_entries@[i],
            record_effect(old(self).resolved_entries@, final(self).resolved_entries@, share_key@, share_scope@, request@, version@),
    {
        let ghost pre = self.resolved_entries@;
        let item = CollectedShareRequest { request, version };
        let mut a: usize = 0;
        while a < self.resolved_entries.len()
            invariant
                0 <= a <= self.resolved_entries.len(),
                self.resolved_entries@ == pre,
                *self == *old(self),
                forall|b: int| 0 <= b < a ==> (#[trigger] pre[b]).share_key@ != share_key@,
            ensures
                a < self.resolved_entries.len() ==> pre[a as int].share_key@ == share_key@,
                a <= self.resolved_entries.len(),
                self.resolved_entries@ == pre,
                *self == *old(self),
                forall|b: int| 0 <= b < a ==> (#[trigger] pre[b]).share_key@ != share_key@,
            decreases self.resolved_entries.len() - a,
        {
            if self.resolved_entries[a].share_key == share_key {
                break;
            }
            a = a + 1;
        }
        if a < self.resolved_entries.len() {
            let ghost old_set = request_set(pre[a as int].requests@);
            proof {
                assert(has_record(pre, share_key@));
                let c = choose|j: int| 0 <= j < pre.len() && (#[trigger] pre[j]).share_key@ == share_key@;
                if c != a {
                    assert(pre[c].share_key@ != pre[a as int].share_key@);
                }
            }
            self.resolved_entries[a].share_scope = share_scope;
            insert_request(&mut self.resolved_entries[a].requests, item);
            proof {
                let post = self.resolved_entries@;
                assert forall|j: int| 0 <= j < post.len() && j != a implies #[trigger] post[j] == pre[j] by {}
                assert forall|x: int, y: int|
                    0 <= x < post.len() && 0 <= y < post.len() && x != y implies (#[trigger] post[x]).share_key@ != (#[trigger] post[y]).share_key@ by {
                    assert(pre[x].share_key@ != pre[y].share_key@);
                }
                assert forall|k: Seq<char>| #[trigger] has_record(post, k) == (has_record(pre, k) || k == share_key@) by {
                    if has_record(pre, k) {
                        let j = choose|j: int| 0 <= j < pre.len() && (#[trigger] pre[j]).share_key@ == k;
                        assert(post[j].share_key@ == k);
                    }
                    if has_record(post, k) {
                        let j = choose|j: int| 0 <= j < post.len() && (#[trigger] post[j]).share_key@ == k;
                        assert(pre[j].share_key@ == k);
                    }
                    if k == share_key@ {
                        assert(post[a as int].share_key@ == k);
                    }
                }
                assert forall|i: int| 0 <= i < pre.len() && (#[trigger] pre[i]).share_key@ != share_key@ implies exists|j: int|
                    0 <= j < post.len() && post[j] == pre[i] by {
                    assert(post[i] == pre[i]);
                }
            }
        } else {
            let mut requests: Vec<CollectedShareRequest> = Vec::new();
            insert_request(&mut requests, item);
            self.resolved_entries.push(CollectShareEntryRecord { share_key, share_scope, requests });
            proof {
                let post = self.resolved_entries@;
                assert(request_set(Seq::<CollectedShareRequest>::empty()) =~= Set::empty());
                assert(!has_record(pre, share_key@));
                assert forall|x: int, y: int|
                    0 <= x < post.len() && 0 <= y < post.len() && x != y implies (#[trigger] post[x]).share_key@ != (#[trigger] post[y]).share_key@ by {
                    if x < pre.len() && y < pre.len() {
                        assert(pre[x].share_key@ != pre[y].share_key@);
                    } else if x < pre.len() {
                        assert(post[x] == pre[x]);
                    } else {
                        assert(post[y] == pre[y]);
                    }
                }
                assert forall|b: int| 0 <= b < post.len() implies requests_sorted((#[trigger] post[b]).requests@) by {
                    if b < pre.len() {
                        assert(post[b] == pre[b]);
                    }
                }
                assert forall|k: Seq<char>| #[trigger] has_record(post, k) == (has_record(pre, k) || k == share_key@) by {
                    if has_record(pre, k) {
                        let j = choose|j: int| 0 <= j < pre.len() && (#[trigger] pre[j]).share_key@ == k;
                        assert(post[j] == pre[j]);
                    }
                    if has_record(post, k) && k != share_key@ {
                        let j = choose|j: int| 0 <= j < post.len() && (#[trigger] post[j]).share_key@ == k;
                        assert(post[j] == pre[j]);
                    }
                    if k == share_key@ {
                        assert(post[pre.len() as int].share_key@ == k);
                    }
                }
                assert forall|i: int| 0 <= i < pre.len() && (#[trigger] pre[i]).share_key@ != share_key@ implies exists|j: int|
                    0 <= j < post.len() && post[j] == pre[i] by {
                    assert(post[i] == pre[i]);
                }
                assert(post[pre.len() as int].share_key@ == share_key@);
            }
        }
    }

    /// Handles a module created for `request`, resolved to `resource` (empty where it
    /// resolved to nothing), whose package description gives `description_version`:
    /// where the request matches a provide and a version is known, records it.
    pub fn normal_module_factory_module(&mut self, request: &String, resource: &String, description_version: &Option<String>)
        requires
            records_wf(old(self).resolved_entries@),
        ensures
            records_wf(final(self).resolved_entries@),
            final(self).provides == old(self).provides,
            resource@.len() == 0 ==> *final(self) == *old(self),
            no_request_match(old(self).provides@, request@) ==> *final(self) == *old(self),
            resource@.len() > 0 && !no_request_match(old(self).provides@, request@) ==> exists|m: ShareMatch|
                #[trigger] request_match(old(self).provides@, request@, m) && (inferred_version(m.version, *description_version) is None
                    ==> *final(self) == *old(self)) && (inferred_version(m.version, *description_version) is Some ==> record_effect(
                    old(self).resolved_entries@,
                    final(self).resolved_entries@,
                    m.share_key@,
                    m.share_scope@,
                    resource@,
                    inferred_version(m.version, *description_version)->Some_0,
                )),
    {
        let found = self.match_request(request);
        if resource.as_str().unicode_len() == 0 {
            return;
        }
        match found {
            Some(m) => {
                let ghost gm = m;
                match infer_version(&m.version, description_version) {
                    Some(v) => {
                        let ghost vv = v@;
                        self.record_entry(m.share_key, m.share_scope, copy_name(resource), v);
                        assert(request_match(old(self).provides@, request@, gm));
                        assert(inferred_version(gm.version, *description_version) == Some(vv));
                    },
                    None => {
                        assert(request_match(old(self).provides@, request@, gm));
                    },
                }
            },
            None => {},
        }
    }
}

/// The `[request, version]` arrays of `r`, in order.
pub fn render_requests(r: &Vec<CollectedShareRequest>) -> (v: JsonValue)
    ensures
        renders_requests(v, r@),
{
    let mut items: Vec<JsonValue> = Vec::new();
    let mut i: usize = 0;
    while i < r.len()
        invariant
            0 <= i <= r.len(),
            items.len() == i,
            forall|j: int| 0 <= j < i ==> {
                let item = #[trigger] items@[j];
                &&& item is Array
                &&& item->Array_0.len() == 2
                &&& item->Array_0@[0] is Str && item->Array_0@[0]->Str_0@ == r@[j].request@
                &&& item->Array_0@[1] is Str && item->Array_0@[1]->Str_0@ == r@[j].version@
            },
        decreases r.len() - i,
    {
        let mut pair: Vec<JsonValue> = Vec::new();
        pair.push(JsonValue::Str(copy_name(&r[i].request)));
        pair.push(JsonValue::Str(copy_name(&r[i].version)));
        items.push(JsonValue::Array(pair));
        i = i + 1;
    }
    JsonValue::Array(items)
}

/// `m` renders one of the first `n` records that hold requests.
pub open spec fn from_some_record(v: Seq<CollectShareEntryRecord>, m: JsonMember, n: int) -> bool {
    exists|a: int| 0 <= a < n && v[a].requests.len() > 0 && #[trigger] renders_record(m, v[a])
}

/// Some member of `ms` renders `rec`.
pub open spec fn rendered_in(ms: Seq<JsonMember>, rec: CollectShareEntryRecord) -> bool {
    exists|j: int| 0 <= j < ms.len() && #[trigger] renders_record(ms[j], rec)
}

impl CollectShareEntryPlugin {
    /// The share-entries asset: an object whose `shared` member maps each share key with
    /// collected requests to its scope and its `[request, version]` pairs, sorted.
    pub fn process_assets(&self) -> (r: JsonValue)
        requires
            records_wf(self.resolved_entries@),
        ensures
            forall|a: int, b: int|
                0 <= a < r->Object_0@[0].value->Object_0.len() && 0 <= b < r->Object_0@[0].value->Object_0.len() && a != b
                    ==> (#[trigger] r->Object_0@[0].value->Object_0@[a]).key@ != (#[trigger] r->Object_0@[0].value->Object_0@[b]).key@,
            r is Object,
            r->Object_0.len() == 1,
            r->Object_0@[0].key@ == "shared"@,
            r->Object_0@[0].value is Object,
            forall|j: int| 0 <= j < r->Object_0@[0].value->Object_0.len() ==> from_some_record(
                self.resolved_entries@,
                #[trigger] r->Object_0@[0].value->Object_0@[j],
                self.resolved_entries.len() as int,
            ),
            forall|i: int| 0 <= i < self.resolved_entries.len() && (#[trigger] self.resolved_entries@[i]).requests.len() > 0
                ==> rendered_in(r->Object_0@[0].value->Object_0@, self.resolved_entries@[i]),
    {
        let mut members: Vec<JsonMember> = Vec::new();
        let mut i: usize = 0;
        while i < self.resolved_entries.len()
            invariant
                0 <= i <= self.resolved_entries.len(),
                forall|j: int| 0 <= j < members.len() ==> from_some_record(self.resolved_entries@, #[trigger] members@[j], i as int),
                forall|a: int| 0 <= a < i && (#[trigger] self.resolved_entries@[a]).requests.len() > 0
                    ==> rendered_in(members@, self.resolved_entries@[a]),
                records_wf(self.resolved_entries@),
                forall|a: int, b: int|
                    0 <= a < members.len() && 0 <= b < members.len() && a != b ==> (#[trigger] members@[a]).key@ != (#[trigger] members@[b]).key@,
            decreases self.resolved_entries.len() - i,
        {
            let rec = &self.resolved_entries[i];
            let ghost pre = members@;
            if rec.requests.len() > 0 {
                let mut fields: Vec<JsonMember> = Vec::new();
                fields.push(JsonMember { key: String::from_str("shareScope"), value: JsonValue::Str(copy_name(&rec.share_scope)) });
                fields.push(JsonMember { key: String::from_str("requests"), value: render_requests(&rec.requests) });
                members.push(JsonMember { key: copy_name(&rec.share_key), value: JsonValue::Object(fields) });
                proof {
                    assert(renders_record(members@[pre.len() as int], self.resolved_entries@[i as int]));
                    assert forall|a: int, b: int|
                        0 <= a < members.len() && 0 <= b < members.len() && a != b implies (#[trigger] members@[a]).key@ != (#[trigger] members@[b]).key@ by {
                        if a < pre.len() && b < pre.len() {
                            assert(members@[a] == pre[a] && members@[b] == pre[b]);
                        } else {
                            let o = if a < pre.len() { a } else { b };
                            assert(members@[o] == pre[o]);
                            let c = choose|c: int| 0 <= c < i && self.resolved_entries@[c].requests.len() > 0 && #[trigger] renders_record(pre[o], self.resolved_entries@[c]);
                            assert(self.resolved_entries@[c].share_key@ != self.resolved_entries@[i as int].share_key@);
                        }
                    }
                    assert forall|a: int| 0 <= a < i + 1 && (#[trigger] self.resolved_entries@[a]).requests.len() > 0
                        implies rendered_in(members@, self.resolved_entries@[a]) by {
                        if a < i {
                            let j = choose|j: int| 0 <= j < pre.len() && #[trigger] renders_record(pre[j], self.resolved_entries@[a]);
                            assert(members@[j] == pre[j]);
                        }
                    }
                }
            }
            proof {
                assert forall|j: int| 0 <= j < members.len() implies from_some_record(self.resolved_entries@, #[trigger] members@[j], i + 1) by {
                    if j < pre.len() {
                        assert(members@[j] == pre[j]);
                        let a = choose|a: int| 0 <= a < i && self.resolved_entries@[a].requests.len() > 0 && #[trigger] renders_record(pre[j], self.resolved_entries@[a]);
                    } else {
                        assert(renders_record(members@[j], self.resolved_entries@[i as int]));
                    }
                }
            }
            i = i + 1;
        }
        let mut top: Vec<JsonMember> = Vec::new();
        top.push(JsonMember { key: String::from_str("shared"), value: JsonValue::Object(members) });
        JsonValue::Object(top)
    }
}

} // verus!
