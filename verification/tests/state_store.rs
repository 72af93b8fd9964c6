use yama::{Package, PackageManager, PkgError};

fn pkg(name: &str, version: &str, deps: &[&str], url: &str) -> Package {
    Package {
        name: name.to_string(),
        version: version.to_string(),
        dependencies: deps.iter().map(|d| d.to_string()).collect(),
        url: url.to_string(),
    }
}

#[test]
fn empty_catalog_saves_as_empty_array() {
    let pm = PackageManager::new("./packages".to_string());
    assert_eq!(pm.save_installed_packages(), "[]");
}

#[test]
fn one_record_saves_pretty_printed() {
    let mut pm = PackageManager::new("./packages".to_string());
    pm.add_package(pkg("libbar", "2.0", &[], "https://example.com/libbar-2.0.zip"));
    let expected = "[\n  {\n    \"name\": \"libbar\",\n    \"version\": \"2.0\",\n    \"dependencies\": [],\n    \"url\": \"https://example.com/libbar-2.0.zip\"\n  }\n]";
    assert_eq!(pm.save_installed_packages(), expected);
}

#[test]
fn dependencies_save_as_indented_items() {
    let mut pm = PackageManager::new("./packages".to_string());
    pm.add_package(pkg("a", "1", &["b", "c"], "https://example.com/a.zip"));
    let expected = "[\n  {\n    \"name\": \"a\",\n    \"version\": \"1\",\n    \"dependencies\": [\n      \"b\",\n      \"c\"\n    ],\n    \"url\": \"https://example.com/a.zip\"\n  }\n]";
    assert_eq!(pm.save_installed_packages(), expected);
}

#[test]
fn save_then_load_reproduces_all_records() {
    let mut pm = PackageManager::new("./packages".to_string());
    pm.add_package(pkg("yama", "1.0", &["libfoo"], "https://example.com/yama-1.0.zip"));
    pm.add_package(pkg("libfoo", "1.2", &["libbar"], "https://example.com/libfoo-1.2.zip"));
    pm.add_package(pkg("libbar", "2.0", &[], "https://example.com/libbar-2.0.zip"));
    let text = pm.save_installed_packages();

    let mut fresh = PackageManager::new("./elsewhere".to_string());
    assert_eq!(fresh.load_installed_packages(&text), Ok(()));
    let mut names = fresh.list_installed_packages();
    names.sort();
    assert_eq!(names, vec!["libbar".to_string(), "libfoo".to_string(), "yama".to_string()]);
    for name in ["yama", "libfoo", "libbar"] {
        let orig = pm.get_package(name).unwrap();
        let back = fresh.get_package(name).unwrap();
        assert_eq!(orig.name, back.name);
        assert_eq!(orig.version, back.version);
        assert_eq!(orig.dependencies, back.dependencies);
        assert_eq!(orig.url, back.url);
    }
}

#[test]
fn quotes_and_backslashes_round_trip() {
    let mut pm = PackageManager::new("./packages".to_string());
    pm.add_package(pkg("odd\"name", "v\\1", &["de\\p\"x"], "https://example.com/a.zip"));
    let text = pm.save_installed_packages();
    let mut fresh = PackageManager::new("./packages".to_string());
    assert_eq!(fresh.load_installed_packages(&text), Ok(()));
    let back = fresh.get_package("odd\"name").unwrap();
    assert_eq!(back.version, "v\\1");
    assert_eq!(back.dependencies, vec!["de\\p\"x".to_string()]);
}

#[test]
fn loading_an_empty_array_adds_nothing() {
    let mut pm = PackageManager::new("./packages".to_string());
    assert_eq!(pm.load_installed_packages("[]"), Ok(()));
    assert!(pm.list_installed_packages().is_empty());
    assert_eq!(pm.load_installed_packages(" [ ] "), Ok(()));
    assert!(pm.list_installed_packages().is_empty());
}

#[test]
fn malformed_text_fails_with_serialization_error() {
    let mut pm = PackageManager::new("./packages".to_string());
    pm.add_package(pkg("keep", "1", &[], "https://example.com/keep.zip"));
    for bad in [
        "",
        "not json",
        "[",
        "[{]",
        "[{\"name\": \"a\"}]",
        "[{\"name\": \"a\", \"version\": \"1\", \"dependencies\": [], \"url\": \"u\"} trailing]",
        "[{\"name\": \"a\", \"version\": \"1\", \"dependencies\": [], \"url\": \"u\"}] x",
        "[{\"version\": \"1\", \"name\": \"a\", \"dependencies\": [], \"url\": \"u\"}]",
    ] {
        assert_eq!(pm.load_installed_packages(bad), Err(PkgError::Serialization));
    }
    // a failed load changes nothing
    assert_eq!(pm.list_installed_packages(), vec!["keep".to_string()]);
}

#[test]
fn load_tolerates_flexible_whitespace() {
    let text = "  [ { \"name\" : \"a\" , \"version\" : \"1\" , \"dependencies\" : [ \"b\" ] , \"url\" : \"u\" } ]  ";
    let mut pm = PackageManager::new("./packages".to_string());
    assert_eq!(pm.load_installed_packages(text), Ok(()));
    let p = pm.get_package("a").unwrap();
    assert_eq!(p.version, "1");
    assert_eq!(p.dependencies, vec!["b".to_string()]);
    assert_eq!(p.url, "u");
}

#[test]
fn load_overwrites_records_with_the_same_name() {
    let mut pm = PackageManager::new("./packages".to_string());
    pm.add_package(pkg("a", "old", &[], "https://example.com/old.zip"));
    let text = "[{\"name\": \"a\", \"version\": \"new\", \"dependencies\": [], \"url\": \"https://example.com/new.zip\"}]";
    assert_eq!(pm.load_installed_packages(text), Ok(()));
    assert_eq!(pm.list_installed_packages(), vec!["a".to_string()]);
    assert_eq!(pm.get_package("a").unwrap().version, "new");
}
