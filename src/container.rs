//! The share container: an entry that exposes one shared module, with the identifiers
//! of its module and dependencies.
use vstd::prelude::*;
use vstd::string::*;
use crate::names::copy_name;

verus! {

/// The share key and request of a share container entry.
pub struct ShareContainerEntryOptions {
    pub share_key: String,
    pub request: String,
}

pub struct ShareContainerPluginOptions {
    pub name: String,
    pub share_name: String,
    pub request: String,
    pub version: String,
    pub global_name: String,
    pub file_name: Option<String>,
}

pub struct ShareContainerPlugin {
    pub options: ShareContainerPluginOptions,
}

/// The dependency of a share container on its fallback module.
pub struct ShareContainerDependency {
    pub request: String,
    pub share_key: String,
    pub resource_identifier: String,
}

/// The entry dependency that creates a share container.
pub struct ShareContainerEntryDependency {
    pub name: String,
    pub share_name: String,
    pub request: String,
    pub version: String,
    pub global_name: String,
    pub resource_identifier: String,
}

/// The module of a share container.
pub struct ShareContainerEntryModule {
    pub identifier: String,
    pub lib_ident: String,
    pub name: String,
    pub share_name: String,
    pub request: String,
    pub version: String,
    pub global_name: String,
}

/// `prefix` followed by `s`.
fn prefixed(prefix: &str, s: &String) -> (r: String)
    ensures
        r@ == prefix@ + s@,
{
    String::from_str(prefix).concat(s.as_str())
}

impl ShareContainerPlugin {
    pub fn new(options: ShareContainerPluginOptions) -> (r: Self)
        ensures
            r.options == options,
    {
        ShareContainerPlugin { options }
    }

    /// The entry dependency that the build adds for this container.
    pub fn entry_dependency(&self) -> (r: ShareContainerEntryDependency)
        ensures
            r.name@ == self.options.name@,
            r.share_name@ == self.options.share_name@,
            r.request@ == self.options.request@,
            r.version@ == self.options.version@,
            r.global_name@ == self.options.global_name@,
            r.resource_identifier@ == "share-container-entry-"@ + self.options.name@,
    {
        ShareContainerEntryDependency::new(
            copy_name(&self.options.name),
            copy_name(&self.options.share_name),
            copy_name(&self.options.request),
            copy_name(&self.options.version),
            copy_name(&self.options.global_name),
        )
    }
}

impl ShareContainerDependency {
    pub fn new(share_key: String, request: String) -> (r: Self)
        ensures
            r.share_key == share_key,
            r.request == request,
            r.resource_identifier@ == "share-container-fallback:"@ + share_key@,
    {
        let resource_identifier = prefixed("share-container-fallback:", &share_key);
        ShareContainerDependency { request, share_key, resource_identifier }
    }
}

impl ShareContainerEntryDependency {
    pub fn new(name: String, share_name: String, request: String, version: String, global_name: String) -> (r: Self)
        ensures
            r.name == name,
            r.share_name == share_name,
            r.request == request,
            r.version == version,
            r.global_name == global_name,
            r.resource_identifier@ == "share-container-entry-"@ + name@,
    {
        let resource_identifier = prefixed("share-container-entry-", &name);
        ShareContainerEntryDependency { name, share_name, request, version, global_name, resource_identifier }
    }
}

impl ShareContainerEntryModule {
    pub fn new(name: String, share_name: String, request: String, version: String, global_name: String) -> (r: Self)
        ensures
            r.name == name,
            r.share_name == share_name,
            r.request == request,
            r.version == version,
            r.global_name == global_name,
            r.lib_ident@ == "webpack/share/container/"@ + name@,
            r.identifier@ == "share container entry "@ + share_name@ + "@"@ + version@,
    {
        let lib_ident = prefixed("webpack/share/container/", &name);
        let identifier = prefixed("share container entry ", &share_name).concat("@").concat(version.as_str());
        ShareContainerEntryModule { identifier, lib_ident, name, share_name, request, version, global_name }
    }

    /// The dependency on the fallback module that building the container adds.
    pub fn fallback_dependency(&self) -> (r: ShareContainerDependency)
        ensures
            r.share_key@ == self.share_name@,
            r.request@ == self.request@,
            r.resource_identifier@ == "share-container-fallback:"@ + self.share_name@,
    {
        ShareContainerDependency::new(copy_name(&self.share_name), copy_name(&self.request))
    }
}

} // verus!

verus! {

/// The JSON text of a string: quoted and escaped.
pub uninterp spec fn json_string_of(s: Seq<char>) -> Seq<char>;

/// Relies on `serde_json::Value::to_string` on a JSON string: the quoted, escaped text,
/// which depends on the characters alone.
#[verifier::external_body]
fn json_quote(s: &String) -> (r: String)
    ensures
        r@ == json_string_of(s@),
{
    serde_json::Value::String(s.clone()).to_string()
}

/// One entry of the container's module map, for a share key and its loader expression.
pub open spec fn entry_text(key: Seq<char>, loader: Seq<char>) -> Seq<char> {
    json_string_of(key) + ": { loader: "@ + loader + ", promise: undefined }"@
}

/// The entries of the module map, one per line.
pub open spec fn map_text(es: Seq<(String, String)>) -> Seq<char>
    decreases es.len(),
{
    if es.len() == 0 {
        Seq::empty()
    } else if es.len() == 1 {
        entry_text(es[0].0@, es[0].1@)
    } else {
        map_text(es.drop_last()) + ",\n"@ + entry_text(es.last().0@, es.last().1@)
    }
}

/// The text of a share container module.
pub open spec fn container_text(global_name: Seq<char>, es: Seq<(String, String)>) -> Seq<char> {
    "const __container_name__ = "@ + json_string_of(global_name) + ";\nconst moduleMap = {\n"@ + map_text(es) + CONTAINER_BODY@
}

/// What follows the module map in a share container module.
pub const CONTAINER_BODY: &'static str = "\n};\n\nfunction load(module) {\n  const entry = moduleMap[module];\n  if (!entry) {\n    return Promise.reject(new Error(\"Shared module \" + module + \" is not available in container \" + __container_name__ + \".\"));\n  }\n  if (!entry.promise) {\n    entry.promise = entry.loader();\n  }\n  return entry.promise;\n}\n\nexport function get(module) {\n  return load(module).then(factory => factory());\n}\n\nexport function init(shareScope, initScope) {\n  return Promise.resolve();\n}\n";

/// The source of a share container module exposing `entries`, each a share key with
/// the loader expression of its fallback.
pub fn share_container_source(global_name: &String, entries: &Vec<(String, String)>) -> (r: String)
    ensures
        r@ == container_text(global_name@, entries@),
{
    let mut map = String::new();
    let mut i: usize = 0;
    while i < entries.len()
        invariant
            0 <= i <= entries.len(),
            map@ == map_text(entries@.subrange(0, i as int)),
        decreases entries.len() - i,
    {
        let (key, loader) = &entries[i];
        let entry = json_quote(key).concat(": { loader: ").concat(loader.as_str()).concat(", promise: undefined }");
        proof {
            let sub = entries@.subrange(0, i + 1);
            assert(sub.drop_last() =~= entries@.subrange(0, i as int));
            assert(sub.last() == entries@[i as int]);
        }
        if i > 0 {
            map.append(",\n");
        }
        map.append(entry.as_str());
        i = i + 1;
    }
    assert(entries@.subrange(0, entries.len() as int) =~= entries@);
    String::from_str("const __container_name__ = ").concat(json_quote(global_name).as_str()).concat(
        ";\nconst moduleMap = {\n",
    ).concat(map.as_str()).concat(CONTAINER_BODY)
}

} // verus!
