use mf_sharing::graph::{Connection, ConnectionState, DependencyType, Module, ModuleGraph, RuntimeReference};
use mf_sharing::lattice::{get_usage, ExportInfo, ExportsInfo, RuntimeUsage, UsageState};
use mf_sharing::plugin::{
    OptimizeDependencyReferencedExportsPlugin, OptimizeDependencyReferencedExportsPluginOptions,
    OptimizeSharedConfig, SharedEntryData,
};
use mf_sharing::state::OptimizeCompilationState;

fn s(x: &str) -> String {
    x.to_string()
}

fn names(xs: &[&str]) -> Vec<String> {
    xs.iter().map(|x| x.to_string()).collect()
}

fn import(request: &str, answers: Vec<(&str, ConnectionState, Vec<Vec<&str>>)>) -> Connection {
    Connection {
        dependency_type: DependencyType::EsmImportSpecifier,
        request: s(request),
        target: 0,
        per_runtime: answers
            .into_iter()
            .map(|(rt, state, refs)| RuntimeReference {
                runtime: s(rt),
                state,
                referenced: refs.into_iter().map(|p| names(&p)).collect(),
            })
            .collect(),
    }
}

fn empty_lattice() -> ExportsInfo {
    ExportsInfo { exports: Vec::new(), other_exports: Vec::new() }
}

fn module(runtimes: &[&str], connections: Vec<Connection>) -> Module {
    Module {
        runtimes: names(runtimes),
        connections,
        provide_share_key: None,
        side_effect_free: None,
        exports_info: empty_lattice(),
    }
}

/// Module 0 provides `react` with fallback module 1; module 2 imports from `react`.
fn graph(consumer: Vec<Connection>, fallback_side_effect_free: Option<bool>, fallback_exports: ExportsInfo) -> ModuleGraph {
    let provide = Module {
        runtimes: names(&["main"]),
        connections: vec![Connection {
            dependency_type: DependencyType::ProvideModuleForShared,
            request: s("./react"),
            target: 1,
            per_runtime: Vec::new(),
        }],
        provide_share_key: Some(s("react")),
        side_effect_free: None,
        exports_info: empty_lattice(),
    };
    let fallback = Module {
        runtimes: names(&["main"]),
        connections: Vec::new(),
        provide_share_key: None,
        side_effect_free: fallback_side_effect_free,
        exports_info: fallback_exports,
    };
    ModuleGraph { modules: vec![provide, fallback, module(&["main", "worker"], consumer)] }
}

fn plugin(treeshake: bool, used: &[&str], ignored: &[&str]) -> OptimizeDependencyReferencedExportsPlugin {
    OptimizeDependencyReferencedExportsPlugin::new(OptimizeDependencyReferencedExportsPluginOptions {
        shared: vec![OptimizeSharedConfig { share_key: s("react"), treeshake, used_exports: names(used) }],
        ignored_runtime: names(ignored),
    })
}

fn run(p: &OptimizeDependencyReferencedExportsPlugin, g: &mut ModuleGraph) -> OptimizeCompilationState {
    let mut st = OptimizeCompilationState::new(&p.shared_keys());
    p.optimize_dependencies(g, &mut st);
    st
}

fn lattice_with(entries: &[(&str, &str, UsageState)]) -> ExportsInfo {
    let mut info = empty_lattice();
    for (name, rt, state) in entries {
        info.exports.push(ExportInfo {
            name: s(name),
            usage: vec![RuntimeUsage { runtime: s(rt), state: *state }],
        });
    }
    info
}

fn state_of(g: &ModuleGraph, m: usize, x: &str, rt: &str) -> UsageState {
    g.modules[m].exports_info.get_used(&s(x), &s(rt))
}

fn other_of(g: &ModuleGraph, m: usize, rt: &str) -> UsageState {
    get_usage(&g.modules[m].exports_info.other_exports, &s(rt))
}

fn flat(st: &OptimizeCompilationState) -> Vec<(String, Vec<String>)> {
    st.build_flat_used_exports().into_iter().map(|f| (f.share_key, f.exports)).collect()
}

fn live(refs: Vec<Vec<&str>>) -> Vec<(&str, ConnectionState, Vec<Vec<&str>>)> {
    vec![("main", ConnectionState::Active, refs)]
}

#[test]
fn collects_live_import_into_bucket() {
    let p = plugin(true, &[], &[]);
    let mut g = graph(vec![import("react", live(vec![vec!["useState"], vec!["useEffect"]]))], Some(true), empty_lattice());
    let st = run(&p, &mut g);
    assert_eq!(flat(&st), vec![(s("react"), names(&["useEffect", "useState"]))]);
    let rt = st.build_runtime_used_exports_map();
    assert_eq!(rt.len(), 1);
    assert_eq!(rt[0].runtimes.len(), 1);
    assert_eq!(rt[0].runtimes[0].runtime, "main");
    assert_eq!(rt[0].runtimes[0].exports, names(&["useEffect", "useState"]));
    assert_eq!(st.runtime_specs, names(&["main"]));
}

#[test]
fn dead_or_unknown_edges_record_nothing() {
    let p = plugin(true, &[], &[]);
    let answers = vec![
        ("main", ConnectionState::Inactive, vec![vec!["a"]]),
        ("worker", ConnectionState::TransitiveOnly, vec![vec!["b"]]),
    ];
    let mut g = graph(vec![import("react", answers)], Some(true), empty_lattice());
    let st = run(&p, &mut g);
    assert!(st.entries.is_empty());
    assert!(st.runtime_specs.is_empty());
}

#[test]
fn ignored_runtime_gets_no_bucket_and_no_marking() {
    let p = plugin(true, &["forced"], &["main"]);
    let before = lattice_with(&[("keep", "main", UsageState::Unknown)]);
    let mut g = graph(vec![import("react", live(vec![vec!["useState"]]))], Some(true), before);
    let st = run(&p, &mut g);
    assert!(st.entries.is_empty());
    assert!(st.runtime_specs.is_empty());
    assert_eq!(state_of(&g, 1, "keep", "main"), UsageState::Unknown);
    assert_eq!(state_of(&g, 1, "useState", "main"), UsageState::Unknown);
    assert_eq!(other_of(&g, 1, "main"), UsageState::Unknown);
}

#[test]
fn untreeshaken_key_never_in_table() {
    let p = plugin(false, &["forced"], &[]);
    let mut g = graph(vec![import("react", live(vec![vec!["useState"]]))], Some(true), empty_lattice());
    let st = run(&p, &mut g);
    assert!(st.share_keys.is_empty());
    assert!(st.entries.is_empty());
    assert!(st.build_flat_used_exports().is_empty());
}

#[test]
fn empty_signal_creates_no_bucket() {
    let p = plugin(true, &[], &[]);
    let mut g = graph(vec![import("react", live(vec![]))], Some(true), empty_lattice());
    let st = run(&p, &mut g);
    assert!(st.entries.is_empty());
    assert!(st.runtime_specs.is_empty());
}

#[test]
fn forced_exports_give_a_bucket_to_an_empty_edge() {
    let p = plugin(true, &["version"], &[]);
    let mut g = graph(vec![import("react", live(vec![]))], Some(true), empty_lattice());
    let st = run(&p, &mut g);
    assert_eq!(flat(&st), vec![(s("react"), names(&["version"]))]);
}

#[test]
fn overrides_attach_only_to_observed_runtimes() {
    let p = OptimizeDependencyReferencedExportsPlugin::with_custom_referenced_exports(
        OptimizeDependencyReferencedExportsPluginOptions {
            shared: vec![OptimizeSharedConfig { share_key: s("react"), treeshake: true, used_exports: Vec::new() }],
            ignored_runtime: Vec::new(),
        },
        vec![SharedEntryData { share_key: s("react"), used_exports: names(&["memo"]) }],
    );
    let mut g = graph(vec![import("react", live(vec![vec!["useState"]]))], Some(true), empty_lattice());
    let st = run(&p, &mut g);
    let rt = st.build_runtime_used_exports_map();
    assert_eq!(rt.len(), 1);
    assert_eq!(rt[0].runtimes.len(), 1);
    assert_eq!(rt[0].runtimes[0].runtime, "main");
    assert_eq!(rt[0].runtimes[0].exports, names(&["memo", "useState"]));
}

#[test]
fn gate_passes_and_marks_rest_unused() {
    let p = plugin(true, &[], &[]);
    let before = lattice_with(&[("useState", "main", UsageState::Unknown), ("Children", "main", UsageState::Unknown)]);
    let mut g = graph(vec![import("react", live(vec![vec!["useState"]]))], Some(true), before);
    let st = run(&p, &mut g);
    assert_eq!(state_of(&g, 1, "useState", "main"), UsageState::Used);
    assert_eq!(state_of(&g, 1, "Children", "main"), UsageState::Unused);
    assert_eq!(other_of(&g, 1, "main"), UsageState::Unused);
    assert_eq!(other_of(&g, 1, "worker"), UsageState::Unknown);
    assert_eq!(g.modules[0].side_effect_free, Some(true));
    assert_eq!(flat(&st), vec![(s("react"), names(&["useState"]))]);
}

#[test]
fn gate_fails_on_settled_unobserved_export() {
    let p = plugin(true, &[], &[]);
    let before = lattice_with(&[("X", "main", UsageState::Used), ("Y", "main", UsageState::Unknown)]);
    let mut g = graph(vec![import("react", live(vec![vec!["useState"]]))], Some(true), before);
    run(&p, &mut g);
    assert_eq!(state_of(&g, 1, "useState", "main"), UsageState::Used);
    assert_eq!(state_of(&g, 1, "X", "main"), UsageState::Used);
    assert_eq!(state_of(&g, 1, "Y", "main"), UsageState::Unknown);
    assert_eq!(other_of(&g, 1, "main"), UsageState::Unknown);
}

#[test]
fn fallback_with_side_effects_is_left_alone() {
    let p = plugin(true, &[], &[]);
    let before = lattice_with(&[("Y", "main", UsageState::Unknown)]);
    let mut g = graph(vec![import("react", live(vec![vec!["useState"]]))], None, before);
    let st = run(&p, &mut g);
    assert_eq!(state_of(&g, 1, "useState", "main"), UsageState::Unknown);
    assert_eq!(state_of(&g, 1, "Y", "main"), UsageState::Unknown);
    assert_eq!(other_of(&g, 1, "main"), UsageState::Unknown);
    assert_eq!(g.modules[1].exports_info.exports.len(), 1);
    assert!(st.build_flat_used_exports().is_empty());
    assert_eq!(st.entries.len(), 1);
    assert!(st.entries[0].exports.is_empty());
    assert_eq!(g.modules[0].side_effect_free, Some(true));
}

#[test]
fn second_pass_changes_nothing() {
    let p = plugin(true, &[], &[]);
    let before = lattice_with(&[("useState", "main", UsageState::Unknown), ("Children", "main", UsageState::Unknown)]);
    let mut g = graph(vec![import("react", live(vec![vec!["useState"]]))], Some(true), before);
    let st1 = run(&p, &mut g);
    let first: Vec<UsageState> = ["useState", "Children"].iter().map(|x| state_of(&g, 1, x, "main")).collect();
    let st2 = run(&p, &mut g);
    let second: Vec<UsageState> = ["useState", "Children"].iter().map(|x| state_of(&g, 1, x, "main")).collect();
    assert_eq!(first, second);
    assert_eq!(flat(&st1), flat(&st2));
    assert_eq!(other_of(&g, 1, "main"), UsageState::Unused);
    assert_eq!(g.modules[1].exports_info.exports.len(), 2);
}

#[test]
fn settled_states_are_not_reassigned() {
    let p = plugin(true, &[], &[]);
    let before = lattice_with(&[("useState", "main", UsageState::Used), ("Children", "main", UsageState::Unused)]);
    let mut g = graph(vec![import("react", live(vec![vec!["useState"]]))], Some(true), before);
    run(&p, &mut g);
    assert_eq!(state_of(&g, 1, "useState", "main"), UsageState::Used);
    assert_eq!(state_of(&g, 1, "Children", "main"), UsageState::Unused);
}

#[test]
fn export_paths_are_flattened_into_names() {
    let mut target = names(&["a"]);
    OptimizeDependencyReferencedExportsPlugin::extend_referenced_exports(&mut target, &vec![names(&["b", "c"]), names(&["a"])]);
    assert_eq!(target, names(&["a", "b", "c"]));
}

#[test]
fn later_config_for_a_key_wins() {
    let p = OptimizeDependencyReferencedExportsPlugin::new(OptimizeDependencyReferencedExportsPluginOptions {
        shared: vec![
            OptimizeSharedConfig { share_key: s("react"), treeshake: true, used_exports: names(&["a"]) },
            OptimizeSharedConfig { share_key: s("vue"), treeshake: false, used_exports: names(&["v"]) },
            OptimizeSharedConfig { share_key: s("react"), treeshake: true, used_exports: names(&["b"]) },
        ],
        ignored_runtime: Vec::new(),
    });
    assert_eq!(p.shared_map.len(), 1);
    assert_eq!(p.shared_map[0].share_key, "react");
    assert_eq!(p.shared_map[0].used_exports, names(&["b"]));
    assert_eq!(p.shared_keys(), names(&["react"]));
}

#[test]
fn shared_fallback_is_marked_pair_by_pair() {
    let p = OptimizeDependencyReferencedExportsPlugin::new(OptimizeDependencyReferencedExportsPluginOptions {
        shared: vec![
            OptimizeSharedConfig { share_key: s("react"), treeshake: true, used_exports: Vec::new() },
            OptimizeSharedConfig { share_key: s("react-dom"), treeshake: true, used_exports: Vec::new() },
        ],
        ignored_runtime: Vec::new(),
    });
    let mut g = graph(
        vec![
            import("react", live(vec![vec!["useState"]])),
            import("react-dom", live(vec![vec!["render"]])),
        ],
        Some(true),
        empty_lattice(),
    );
    g.modules.push(Module {
        runtimes: names(&["main"]),
        connections: vec![Connection {
            dependency_type: DependencyType::ProvideModuleForShared,
            request: s("./react-dom"),
            target: 1,
            per_runtime: Vec::new(),
        }],
        provide_share_key: Some(s("react-dom")),
        side_effect_free: None,
        exports_info: empty_lattice(),
    });
    run(&p, &mut g);
    assert_eq!(g.modules[3].side_effect_free, Some(true));
    assert_eq!(state_of(&g, 1, "render", "main"), UsageState::Used);
    assert_eq!(state_of(&g, 1, "useState", "main"), UsageState::Used);
    assert_eq!(other_of(&g, 1, "main"), UsageState::Unused);
}
