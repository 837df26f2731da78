use mf_sharing::collect::{
    infer_version, CollectShareEntryPlugin, CollectShareEntryPluginOptions, ProvideOptions, ProvideVersion,
};
use mf_sharing::container::{share_container_source, ShareContainerEntryModule, ShareContainerPlugin, ShareContainerPluginOptions};
use mf_sharing::manifest::JsonValue;

fn s(x: &str) -> String {
    x.to_string()
}

fn provide(key: &str, scope: &str, version: Option<ProvideVersion>) -> ProvideOptions {
    ProvideOptions { share_key: s(key), share_scope: s(scope), version }
}

fn collector() -> CollectShareEntryPlugin {
    let mut p = CollectShareEntryPlugin::new(CollectShareEntryPluginOptions {
        provides: vec![
            (s("react"), provide("react", "default", Some(ProvideVersion::Version(s("18.2.0"))))),
            (s("lodash/"), provide("lodash/", "default", None)),
            (s("./local"), provide("local", "scope2", Some(ProvideVersion::False))),
        ],
        filename: None,
    });
    p.compilation();
    p
}

fn str_of(v: &JsonValue) -> String {
    match v {
        JsonValue::Str(x) => x.clone(),
        _ => panic!("not a string"),
    }
}

#[test]
fn collector_classifies_provides() {
    let p = collector();
    assert_eq!(p.filename, "collect-share-entries.json");
    assert!(!p.provides[0].is_prefix);
    assert!(p.provides[1].is_prefix);
    assert_eq!(p.resolved_entries.len(), 3);
    assert!(p.resolved_entries.iter().all(|r| r.requests.is_empty()));
}

#[test]
fn requests_match_exact_prefix_and_relative() {
    let p = collector();
    let m = p.match_request(&s("react")).unwrap();
    assert_eq!(m.share_key, "react");
    assert_eq!(m.version, Some(s("18.2.0")));
    let m = p.match_request(&s("lodash/get")).unwrap();
    assert_eq!(m.share_key, "lodash/get");
    assert_eq!(m.share_scope, "default");
    let m = p.match_request(&s("./local")).unwrap();
    assert_eq!(m.share_key, "local");
    assert_eq!(m.version, None);
    assert!(p.match_request(&s("vue")).is_none());
    assert!(p.match_request(&s("./other")).is_none());
}

#[test]
fn versions_come_from_config_then_description() {
    assert_eq!(infer_version(&Some(s("1.0.0")), &Some(s("2.0.0"))), Some(s("1.0.0")));
    assert_eq!(infer_version(&None, &Some(s("2.0.0"))), Some(s("2.0.0")));
    assert_eq!(infer_version(&None, &Some(s(""))), None);
    assert_eq!(infer_version(&None, &None), None);
}

#[test]
fn collected_requests_are_sorted_and_unique() {
    let mut p = collector();
    p.normal_module_factory_module(&s("react"), &s("/nm/react/index.js"), &None);
    p.normal_module_factory_module(&s("react"), &s("/nm/react/cjs.js"), &None);
    p.normal_module_factory_module(&s("react"), &s("/nm/react/index.js"), &None);
    p.normal_module_factory_module(&s("react"), &s(""), &None);
    p.normal_module_factory_module(&s("lodash/get"), &s("/nm/lodash/get.js"), &None);
    p.normal_module_factory_module(&s("lodash/set"), &s("/nm/lodash/set.js"), &Some(s("4.17.21")));
    let asset = p.process_assets();
    let JsonValue::Object(top) = asset else { panic!("not an object") };
    assert_eq!(top.len(), 1);
    assert_eq!(top[0].key, "shared");
    let JsonValue::Object(shared) = &top[0].value else { panic!("not an object") };
    assert_eq!(shared.len(), 2);
    assert_eq!(shared[0].key, "react");
    let JsonValue::Object(fields) = &shared[0].value else { panic!("not an object") };
    assert_eq!(fields[0].key, "shareScope");
    assert_eq!(str_of(&fields[0].value), "default");
    let JsonValue::Array(reqs) = &fields[1].value else { panic!("not an array") };
    assert_eq!(reqs.len(), 2);
    let JsonValue::Array(first) = &reqs[0] else { panic!("not an array") };
    assert_eq!(str_of(&first[0]), "/nm/react/cjs.js");
    assert_eq!(str_of(&first[1]), "18.2.0");
    assert_eq!(shared[1].key, "lodash/set");
}

#[test]
fn container_identifiers() {
    let m = ShareContainerEntryModule::new(s("c"), s("react"), s("./react"), s("18.2.0"), s("g"));
    assert_eq!(m.identifier, "share container entry react@18.2.0");
    assert_eq!(m.lib_ident, "webpack/share/container/c");
    let d = m.fallback_dependency();
    assert_eq!(d.resource_identifier, "share-container-fallback:react");
    let p = ShareContainerPlugin::new(ShareContainerPluginOptions {
        name: s("c"),
        share_name: s("react"),
        request: s("./react"),
        version: s("18.2.0"),
        global_name: s("g"),
        file_name: None,
    });
    assert_eq!(p.entry_dependency().resource_identifier, "share-container-entry-c");
}

#[test]
fn container_source_lists_its_modules() {
    let src = share_container_source(
        &s("app\"x"),
        &vec![(s("react"), s("L1")), (s("vue"), s("L2"))],
    );
    assert!(src.starts_with("const __container_name__ = \"app\\\"x\";\nconst moduleMap = {\n"));
    assert!(src.contains("\"react\": { loader: L1, promise: undefined },\n\"vue\": { loader: L2, promise: undefined }\n};"));
    assert!(src.ends_with("export function init(shareScope, initScope) {\n  return Promise.resolve();\n}\n"));
}
