//! End-to-end boot: two manifests, start order, assembled groups,
//! registries, and hook dispatch.

use kindling::Capability;
use kindling::Dependencies;
use kindling::Orchestrator;
use kindling::Registry;
use kindling::RegistrySeed;
use kindling::ServiceConfig;
use kindling::hook::dispatch_hook;
use kindling::hook::find_registry;
use kindling::hook::hook_bindings;
use kindling::orchestrator::build_graph;

fn cap(handle: u64) -> Capability {
    Capability { handle }
}

fn config(needs: &[&str], targets: &[&str]) -> ServiceConfig {
    ServiceConfig {
        description: None,
        license: Vec::new(),
        targets: targets.iter().map(|t| t.to_string()).collect(),
        dependencies: Dependencies {
            need: needs.iter().map(|n| n.to_string()).collect(),
            milestone: Vec::new(),
            waits_for: Vec::new(),
        },
    }
}

/// Drive a full boot: hand each planned spawn a fresh capability drawn
/// from `counter`, and collect (name, capability) in start order.
fn drive(orch: &mut Orchestrator) -> Vec<(String, Capability)> {
    let mut started = Vec::new();
    let mut counter = 100u64;
    while let Some(plan) = orch.next_start() {
        counter += 1;
        let given = orch.started(cap(counter));
        assert_eq!(given, cap(counter));
        started.push((plan.name, given));
    }
    started
}

fn seed_names(seed: &RegistrySeed) -> Vec<String> {
    let mut names = seed.config.service_names.clone();
    names.sort();
    names
}

#[test]
fn two_service_boot_end_to_end() {
    // A{needs:[], targets:["server"]}, B{needs:[A], targets:["server","client"]}
    let graph = build_graph(vec![
        ("A".to_string(), config(&[], &["server"])),
        ("B".to_string(), config(&["A"], &["server", "client"])),
    ])
    .expect("graph builds");
    let mut orch = Orchestrator::new(graph, "init".to_string()).expect("acyclic");

    // the first planned spawn is A: the order places A before B
    let first = orch.next_start().expect("two services pending");
    assert_eq!(first.name, "A");
    assert_eq!(first.executable_path, "init/A/service.wasm");
    let started = drive(&mut orch);
    assert_eq!(started.len(), 2);
    assert_eq!(started[0].0, "A");
    assert_eq!(started[1].0, "B");
    let a_cap = started[0].1;
    let b_cap = started[1].1;
    assert!(orch.next_start().is_none());

    // assembled groups: server = {A, B}, client = {B}
    let seeds = orch.registry_seeds();
    assert_eq!(seeds.len(), 2);
    let server = seeds.iter().find(|s| s.tag == "server").expect("server group");
    let client = seeds.iter().find(|s| s.tag == "client").expect("client group");
    assert_eq!(seed_names(server), vec!["A".to_string(), "B".to_string()]);
    assert_eq!(seed_names(client), vec!["B".to_string()]);

    // every seed bootstraps: counts match by construction
    let mut registries: Vec<(String, Capability)> = Vec::new();
    let mut registry_handle = 1000u64;
    let mut live: Vec<(String, Registry)> = Vec::new();
    for seed in seeds {
        let tag = seed.tag.clone();
        let reg = Registry::boot(seed.config, seed.caps).expect("seed counts match");
        registry_handle += 1;
        registries.push((tag.clone(), cap(registry_handle)));
        live.push((tag, reg));
    }

    // the server registry serves the started capabilities by name
    let server_reg = &live.iter().find(|(t, _)| t == "server").unwrap().1;
    assert_eq!(server_reg.get(&"A".to_string()), Some(a_cap));
    assert_eq!(server_reg.get(&"B".to_string()), Some(b_cap));
    let client_reg = &live.iter().find(|(t, _)| t == "client").unwrap().1;
    assert_eq!(client_reg.get(&"A".to_string()), None);
    assert_eq!(client_reg.get(&"B".to_string()), Some(b_cap));

    // a resolved "server" hook receives exactly the server registry
    let server_registry = find_registry(&registries, &"server".to_string());
    assert!(server_registry.is_some());
    let hook_cap = cap(5000);
    let send = dispatch_hook(Some(hook_cap), server_registry).expect("both present");
    assert_eq!(send.hook, hook_cap);
    assert_eq!(Some(send.registry), server_registry);

    // an absent "client" hook is skipped with no message and no error
    let client_registry = find_registry(&registries, &"client".to_string());
    assert!(client_registry.is_some());
    assert_eq!(dispatch_hook(None, client_registry), None);

    // a "daemon" registry was never assembled: skipped as well
    let daemon_registry = find_registry(&registries, &"daemon".to_string());
    assert_eq!(daemon_registry, None);
    assert_eq!(dispatch_hook(Some(cap(6000)), daemon_registry), None);
}

#[test]
fn cyclic_graph_fails_before_any_spawn_is_planned() {
    let graph = build_graph(vec![
        ("a".to_string(), config(&["b"], &["server"])),
        ("b".to_string(), config(&["a"], &["server"])),
    ])
    .expect("graph itself builds");
    // scheduling fails, so no orchestrator exists and no spawn is ever planned
    assert!(Orchestrator::new(graph, "init".to_string()).is_err());
}

#[test]
fn well_known_hooks_are_fixed() {
    let bindings = hook_bindings();
    let pairs: Vec<(String, String)> = bindings
        .into_iter()
        .map(|b| (b.target, b.service))
        .collect();
    assert_eq!(
        pairs,
        vec![
            ("server".to_string(), "hearth.init.Server".to_string()),
            ("client".to_string(), "hearth.init.Client".to_string()),
            ("daemon".to_string(), "hearth.init.Daemon".to_string()),
        ]
    );
}

#[test]
fn bundle_paths_follow_the_convention() {
    let dir = "init".to_string();
    let name = "terminal".to_string();
    assert_eq!(
        kindling::orchestrator::manifest_path(&dir, &name),
        "init/terminal/service.toml"
    );
    assert_eq!(
        kindling::orchestrator::service_path(&dir, &name),
        "init/terminal/service.wasm"
    );
}

#[test]
fn services_with_no_targets_yield_no_registries() {
    let graph = build_graph(vec![("quiet".to_string(), config(&[], &[]))]).unwrap();
    let mut orch = Orchestrator::new(graph, "init".to_string()).unwrap();
    let started = drive(&mut orch);
    assert_eq!(started.len(), 1);
    assert!(orch.registry_seeds().is_empty());
}
