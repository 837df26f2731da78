use mf_sharing::graph::{Connection, ConnectionState, DependencyType, Module, ModuleGraph, RuntimeReference};
use mf_sharing::lattice::ExportsInfo;
use mf_sharing::manifest::{patch_manifest, JsonMember, JsonValue};
use mf_sharing::names::{compare_names, sorted_listing};
use mf_sharing::overrides::load_custom_referenced_exports;
use mf_sharing::plugin::{
    OptimizeDependencyReferencedExportsPlugin, OptimizeDependencyReferencedExportsPluginOptions, OptimizeSharedConfig,
};
use mf_sharing::session::SessionRegistry;
use mf_sharing::state::{FlatUsedExports, OptimizeCompilationState};

fn s(x: &str) -> String {
    x.to_string()
}

fn names(xs: &[&str]) -> Vec<String> {
    xs.iter().map(|x| x.to_string()).collect()
}

fn obj(members: Vec<(&str, JsonValue)>) -> JsonValue {
    JsonValue::Object(members.into_iter().map(|(k, v)| JsonMember { key: s(k), value: v }).collect())
}

fn str_array(xs: &[&str]) -> JsonValue {
    JsonValue::Array(xs.iter().map(|x| JsonValue::Str(s(x))).collect())
}

fn same(a: &JsonValue, b: &JsonValue) -> bool {
    match (a, b) {
        (JsonValue::Null, JsonValue::Null) => true,
        (JsonValue::Bool(x), JsonValue::Bool(y)) => x == y,
        (JsonValue::Number(x), JsonValue::Number(y)) => x == y,
        (JsonValue::Str(x), JsonValue::Str(y)) => x == y,
        (JsonValue::Array(x), JsonValue::Array(y)) => x.len() == y.len() && x.iter().zip(y).all(|(p, q)| same(p, q)),
        (JsonValue::Object(x), JsonValue::Object(y)) => {
            x.len() == y.len() && x.iter().zip(y).all(|(p, q)| p.key == q.key && same(&p.value, &q.value))
        }
        _ => false,
    }
}

fn react_table() -> Vec<FlatUsedExports> {
    let mut st = OptimizeCompilationState::new(&names(&["react"]));
    st.add_exports(&s("react"), &s("main"), &names(&["useState", "useEffect"]));
    st.build_flat_used_exports()
}

#[test]
fn manifest_patch_adds_sorted_used_exports() {
    let manifest = obj(vec![("shared", JsonValue::Array(vec![obj(vec![("name", JsonValue::Str(s("react")))])]))]);
    let patched = patch_manifest(manifest, &react_table());
    let expected = obj(vec![(
        "shared",
        JsonValue::Array(vec![obj(vec![
            ("name", JsonValue::Str(s("react"))),
            ("usedExports", str_array(&["useEffect", "useState"])),
        ])]),
    )]);
    assert!(same(&patched, &expected));
}

#[test]
fn manifest_patch_overwrites_and_skips_unknown_names() {
    let manifest = obj(vec![
        ("version", JsonValue::Number(s("1"))),
        (
            "shared",
            JsonValue::Array(vec![
                obj(vec![("name", JsonValue::Str(s("react"))), ("usedExports", str_array(&["old"]))]),
                obj(vec![("name", JsonValue::Str(s("vue")))]),
                JsonValue::Null,
            ]),
        ),
    ]);
    let patched = patch_manifest(manifest, &react_table());
    let expected = obj(vec![
        ("version", JsonValue::Number(s("1"))),
        (
            "shared",
            JsonValue::Array(vec![
                obj(vec![("name", JsonValue::Str(s("react"))), ("usedExports", str_array(&["useEffect", "useState"]))]),
                obj(vec![("name", JsonValue::Str(s("vue")))]),
                JsonValue::Null,
            ]),
        ),
    ]);
    assert!(same(&patched, &expected));
}

#[test]
fn manifest_without_shared_array_is_unchanged() {
    let manifest = obj(vec![("shared", JsonValue::Bool(true))]);
    let patched = patch_manifest(manifest, &react_table());
    assert!(same(&patched, &obj(vec![("shared", JsonValue::Bool(true))])));
}

#[test]
fn names_sort_by_code_point_without_repeats() {
    let sorted = sorted_listing(&names(&["b", "B", "ab", "a", "b", "é", ""]));
    assert_eq!(sorted, names(&["", "B", "a", "ab", "b", "é"]));
    assert!(compare_names(&s("a"), &s("ab")) < 0);
    assert!(compare_names(&s("b"), &s("ab")) > 0);
    assert_eq!(compare_names(&s("x"), &s("x")), 0);
}

#[test]
fn buckets_are_unique_per_key_and_runtime() {
    let mut st = OptimizeCompilationState::new(&names(&["react", "vue"]));
    st.add_exports(&s("react"), &s("main"), &names(&["a"]));
    st.add_exports(&s("react"), &s("main"), &names(&["b", "a"]));
    st.add_exports(&s("react"), &s("worker"), &names(&["c"]));
    st.add_exports(&s("vue"), &s("main"), &Vec::new());
    assert_eq!(st.entries.len(), 3);
    let flat = st.build_flat_used_exports();
    assert_eq!(flat.len(), 1);
    assert_eq!(flat[0].share_key, "react");
    assert_eq!(flat[0].exports, names(&["a", "b", "c"]));
    let rt = st.build_runtime_used_exports_map();
    assert_eq!(rt.len(), 1);
    assert_eq!(rt[0].runtimes.len(), 2);
    assert_eq!(rt[0].runtimes[0].runtime, "main");
    assert_eq!(rt[0].runtimes[0].exports, names(&["a", "b"]));
    assert_eq!(rt[0].runtimes[1].exports, names(&["c"]));
    st.clear_exports_for_share(&s("react"));
    assert_eq!(st.entries.len(), 3);
    assert!(st.build_flat_used_exports().is_empty());
    st.reset(&names(&["react"]));
    assert!(st.entries.is_empty());
    assert_eq!(st.share_keys, names(&["react"]));
}

#[test]
fn override_map_parses_and_degrades_to_empty() {
    let parsed = load_custom_referenced_exports(Some(s("{\"react\":[\"memo\",\"lazy\"]}")));
    assert_eq!(parsed.len(), 1);
    assert_eq!(parsed[0].share_key, "react");
    assert_eq!(parsed[0].used_exports, names(&["memo", "lazy"]));
    assert!(load_custom_referenced_exports(Some(s("not json"))).is_empty());
    assert!(load_custom_referenced_exports(Some(s("   "))).is_empty());
    assert!(load_custom_referenced_exports(Some(s(" \t\n\u{3000}"))).is_empty());
    assert!(load_custom_referenced_exports(Some(s("{}"))).is_empty());
    assert!(load_custom_referenced_exports(Some(s("{\"react\": 3}"))).is_empty());
    assert!(load_custom_referenced_exports(None).is_empty());
}

#[test]
fn sessions_are_created_and_dropped() {
    let p = OptimizeDependencyReferencedExportsPlugin::new(OptimizeDependencyReferencedExportsPluginOptions {
        shared: vec![OptimizeSharedConfig { share_key: s("react"), treeshake: true, used_exports: Vec::new() }],
        ignored_runtime: Vec::new(),
    });
    let mut reg = SessionRegistry::new();
    p.compilation(&mut reg, 7);
    p.compilation(&mut reg, 9);
    assert_eq!(reg.sessions.len(), 2);
    assert!(p.session_flat_used_exports(&reg, 7).is_empty());
    p.clear_cache(&mut reg, 7);
    assert_eq!(reg.sessions.len(), 1);
    assert_eq!(reg.sessions[0].id, 9);
    assert!(reg.find(7).is_none());
    assert!(p.session_runtime_used_exports(&reg, 7).is_empty());
}

#[test]
fn session_manifest_is_patched_from_its_table() {
    let p = OptimizeDependencyReferencedExportsPlugin::new(OptimizeDependencyReferencedExportsPluginOptions {
        shared: vec![OptimizeSharedConfig { share_key: s("react"), treeshake: true, used_exports: Vec::new() }],
        ignored_runtime: Vec::new(),
    });
    let consumer = Module {
        runtimes: names(&["main"]),
        connections: vec![Connection {
            dependency_type: DependencyType::EsmImportSpecifier,
            request: s("react"),
            target: 0,
            per_runtime: vec![RuntimeReference {
                runtime: s("main"),
                state: ConnectionState::Active,
                referenced: vec![names(&["useState"]), names(&["useEffect"])],
            }],
        }],
        provide_share_key: None,
        side_effect_free: None,
        exports_info: ExportsInfo { exports: Vec::new(), other_exports: Vec::new() },
    };
    let mut g = ModuleGraph { modules: vec![consumer] };
    let mut reg = SessionRegistry::new();
    p.compilation(&mut reg, 1);
    assert!(p.optimize_session(&mut reg, 1, &mut g));
    let manifest = obj(vec![("shared", JsonValue::Array(vec![obj(vec![("name", JsonValue::Str(s("react")))])]))]);
    let patched = p.process_manifest(&reg, 1, manifest).unwrap();
    let expected = obj(vec![(
        "shared",
        JsonValue::Array(vec![obj(vec![
            ("name", JsonValue::Str(s("react"))),
            ("usedExports", str_array(&["useEffect", "useState"])),
        ])]),
    )]);
    assert!(same(&patched, &expected));
    let map = p.session_runtime_used_exports(&reg, 1);
    assert_eq!(map.len(), 1);
    assert_eq!(map[0].runtimes[0].exports, names(&["useEffect", "useState"]));
    assert!(p.process_manifest(&reg, 2, obj(vec![])).is_none());
}
