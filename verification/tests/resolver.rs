use yama::{Package, PackageManager, PkgError};

fn pkg(name: &str, version: &str, deps: &[&str], url: &str) -> Package {
    Package {
        name: name.to_string(),
        version: version.to_string(),
        dependencies: deps.iter().map(|d| d.to_string()).collect(),
        url: url.to_string(),
    }
}

fn manager_with(packages: Vec<Package>) -> PackageManager {
    let mut pm = PackageManager::new("./packages".to_string());
    for p in packages {
        pm.add_package(p);
    }
    pm
}

#[test]
fn chain_resolves_dependencies_first() {
    let mut pm = PackageManager::new("./packages".to_string());
    yama::manager::add_initial_packages(&mut pm).unwrap();
    let order = pm.resolve_dependencies("yama");
    assert_eq!(order, vec!["libbar".to_string(), "libfoo".to_string(), "yama".to_string()]);
}

#[test]
fn unknown_root_resolves_to_empty() {
    let mut pm = PackageManager::new("./packages".to_string());
    yama::manager::add_initial_packages(&mut pm).unwrap();
    let order = pm.resolve_dependencies("absent");
    assert!(order.is_empty());
}

#[test]
fn cycle_terminates_with_each_name_once() {
    let pm = manager_with(vec![
        pkg("a", "1", &["b"], "https://example.com/a.zip"),
        pkg("b", "1", &["a"], "https://example.com/b.zip"),
    ]);
    let order = pm.resolve_dependencies("a");
    assert_eq!(order, vec!["b".to_string(), "a".to_string()]);
}

#[test]
fn self_dependency_is_visited_once() {
    let pm = manager_with(vec![pkg("solo", "1", &["solo"], "https://example.com/solo.zip")]);
    let order = pm.resolve_dependencies("solo");
    assert_eq!(order, vec!["solo".to_string()]);
}

#[test]
fn diamond_follows_the_stack_trace_exactly() {
    // A pushes B then C; C is popped first and records D before B is popped,
    // so D ends up before C but after B: not a strict topological order.
    let pm = manager_with(vec![
        pkg("A", "1", &["B", "C"], "https://example.com/A.zip"),
        pkg("B", "1", &["D"], "https://example.com/B.zip"),
        pkg("C", "1", &["D"], "https://example.com/C.zip"),
        pkg("D", "1", &[], "https://example.com/D.zip"),
    ]);
    let order = pm.resolve_dependencies("A");
    assert_eq!(
        order,
        vec!["B".to_string(), "D".to_string(), "C".to_string(), "A".to_string()]
    );
}

#[test]
fn remove_unknown_fails_and_changes_nothing() {
    let mut pm = manager_with(vec![pkg("a", "1", &[], "https://example.com/a.zip")]);
    let before_names = pm.list_installed_packages();
    let before_state = pm.save_installed_packages();
    let r = pm.remove_package("missing");
    assert_eq!(r, Err(PkgError::NotFound));
    assert_eq!(pm.list_installed_packages(), before_names);
    assert_eq!(pm.save_installed_packages(), before_state);
}

#[test]
fn remove_known_deletes_the_record() {
    let mut pm = manager_with(vec![
        pkg("a", "1", &[], "https://example.com/a.zip"),
        pkg("b", "1", &[], "https://example.com/b.zip"),
    ]);
    assert_eq!(pm.remove_package("a"), Ok(()));
    assert_eq!(pm.list_installed_packages(), vec!["b".to_string()]);
    assert!(pm.get_package("a").is_none());
}

#[test]
fn add_overwrites_by_name() {
    let mut pm = manager_with(vec![pkg("a", "1", &[], "https://example.com/a1.zip")]);
    pm.add_package(pkg("a", "2", &["x"], "https://example.com/a2.zip"));
    assert_eq!(pm.list_installed_packages(), vec!["a".to_string()]);
    let got = pm.get_package("a").unwrap();
    assert_eq!(got.version, "2");
    assert_eq!(got.url, "https://example.com/a2.zip");
    assert_eq!(got.dependencies, vec!["x".to_string()]);
}

#[test]
fn install_plan_follows_resolution_order_and_paths() {
    let mut pm = PackageManager::new("./packages".to_string());
    yama::manager::add_initial_packages(&mut pm).unwrap();
    let plan = pm.install_package("yama");
    let names: Vec<String> = plan.iter().map(|a| a.name.clone()).collect();
    assert_eq!(names, vec!["libbar".to_string(), "libfoo".to_string(), "yama".to_string()]);
    assert_eq!(plan[0].url, "https://example.com/libbar-2.0.zip");
    assert_eq!(plan[0].archive_path, "./packages/libbar-2.0.zip");
    assert_eq!(plan[0].extract_dir, "./packages/libbar");
    assert_eq!(plan[2].archive_path, "./packages/yama-1.0.zip");
    assert_eq!(plan[2].extract_dir, "./packages/yama");
}

#[test]
fn install_plan_for_unknown_name_is_empty() {
    let pm = manager_with(vec![pkg("a", "1", &[], "https://example.com/a.zip")]);
    let plan = pm.install_package("missing");
    assert!(plan.is_empty());
}

#[test]
fn state_path_is_under_install_dir() {
    let pm = PackageManager::new("./packages".to_string());
    assert_eq!(pm.state_path(), "./packages/installed_packages.json");
}
