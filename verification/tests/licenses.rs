use cargo_license::Dependency;

const REG: &str = "registry+https://crates.example/index";

fn ident(source: &str) -> Dependency {
    Dependency {
        name: "lib".to_string(),
        version: "1.0.0".to_string(),
        source: source.to_string(),
    }
}

#[test]
fn normalization_trims_dedups_and_sorts() {
    let d = ident(REG);
    let r = d.normalize(&Some("MIT/ Apache-2.0/MIT".to_string()));
    assert_eq!(r, Some("Apache-2.0/MIT".to_string()));
}

#[test]
fn normalization_sorts_alternatives() {
    let d = ident(REG);
    let r = d.normalize(&Some("Zlib/Apache-2.0".to_string()));
    assert_eq!(r, Some("Apache-2.0/Zlib".to_string()));
}

#[test]
fn normalization_keeps_single_license() {
    let d = ident(REG);
    assert_eq!(d.normalize(&Some("MIT".to_string())), Some("MIT".to_string()));
}

#[test]
fn normalization_trims_whitespace() {
    let d = ident(REG);
    assert_eq!(d.normalize(&Some("  MIT \t".to_string())), Some("MIT".to_string()));
}

#[test]
fn normalization_of_empty_string() {
    let d = ident(REG);
    assert_eq!(d.normalize(&Some(String::new())), Some(String::new()));
}

#[test]
fn absent_license_stays_absent() {
    let d = ident(REG);
    assert_eq!(d.normalize(&None), None);
}

#[test]
fn registry_identity_resolves_license() {
    let d = ident(REG);
    assert_eq!(
        d.get_license(&Some("MIT/Apache-2.0".to_string())),
        Some("Apache-2.0/MIT".to_string())
    );
}

#[test]
fn registry_identity_without_declaration_has_none() {
    let d = ident(REG);
    assert_eq!(d.get_license(&None), None);
}

#[test]
fn non_registry_source_never_resolves() {
    let d = ident("path+/somewhere/local");
    assert_eq!(d.get_license(&Some("MIT".to_string())), None);
    let d = ident("git+https://example/repo.git");
    assert_eq!(d.get_license(&Some("MIT".to_string())), None);
    let d = ident("local package");
    assert_eq!(d.get_license(&Some("MIT".to_string())), None);
}
