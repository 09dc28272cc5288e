use depscout::demand::Demand;
use depscout::error::ExploreError;
use depscout::registry::crate_url;

fn demand(features: &[&str], reqs: &[&str]) -> Demand {
    Demand::new(
        features.iter().map(|s| s.to_string()).collect(),
        reqs.iter().map(|s| s.to_string()).collect(),
    )
    .unwrap()
}

fn s(x: &str) -> String {
    x.to_string()
}

#[test]
fn merge_idempotent_reports_no_change() {
    let mut d = demand(&["default", "ext/tls"], &["^1", "*"]);
    let before = d.duplicate();
    let same = demand(&["default", "ext/tls"], &["^1", "*"]);
    let changed = d.merge(&same);
    assert!(!changed);
    assert!(d == before);
}

#[test]
fn merge_is_monotonic_union() {
    let mut a = demand(&["default"], &["^1"]);
    let b = demand(&["ext"], &["^2"]);
    let changed = a.merge(&b);
    assert!(changed);
    assert!(a.has_feature(&s("default")));
    assert!(a.has_feature(&s("ext")));
    assert!(a.has_req(&s("^1")));
    assert!(a.has_req(&s("^2")));
}

#[test]
fn merge_of_contained_demand_is_no_op() {
    let mut a = demand(&["default", "ext"], &["^1", "^2"]);
    let before = a.duplicate();
    let b = demand(&["ext"], &["^1"]);
    let changed = a.merge(&b);
    assert!(!changed);
    assert!(a == before);
}

#[test]
fn invalid_seed_requirement_is_reported() {
    let r = Demand::new(vec![s("default")], vec![s("not a requirement !!")]);
    match r {
        Err(ExploreError::InvalidVersionRequirement { package, dep, req, .. }) => {
            assert_eq!(package, "");
            assert_eq!(dep, "");
            assert_eq!(req, "not a requirement !!");
        },
        _ => panic!("expected an invalid-requirement error"),
    }
}

#[test]
fn demand_matches_any_range() {
    let d = demand(&[], &["^1", "^3"]);
    assert!(d.matches_version(&s("1.2.3")));
    assert!(d.matches_version(&s("3.0.1")));
    assert!(!d.matches_version(&s("2.0.0")));
    assert!(!d.matches_version(&s("not a version")));
}

#[test]
fn star_matches_everything_released() {
    let d = demand(&[], &["*"]);
    assert!(d.matches_version(&s("0.1.0")));
    assert!(d.matches_version(&s("42.0.7")));
}

#[test]
fn url_of_one_character_name() {
    assert_eq!(crate_url("a"), "https://lib.rs/registry-proxy/1/a");
}

#[test]
fn url_of_two_character_name() {
    assert_eq!(crate_url("ab"), "https://lib.rs/registry-proxy/2/ab");
}

#[test]
fn url_of_three_character_name() {
    assert_eq!(crate_url("abc"), "https://lib.rs/registry-proxy/3/a/abc");
}

#[test]
fn url_of_longer_name() {
    assert_eq!(crate_url("serde"), "https://lib.rs/registry-proxy/se/rd/serde");
}

#[test]
fn url_is_lower_cased() {
    assert_eq!(crate_url("SeRdE"), "https://lib.rs/registry-proxy/se/rd/serde");
}
