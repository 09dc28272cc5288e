use depscout::demand::Demand;
use depscout::engine::Exploration;
use depscout::error::ExploreError;
use depscout::records::{Crate, Dep, DepKind};

fn s(x: &str) -> String {
    x.to_string()
}

fn demand(features: &[&str], reqs: &[&str]) -> Demand {
    Demand::new(
        features.iter().map(|x| x.to_string()).collect(),
        reqs.iter().map(|x| x.to_string()).collect(),
    )
    .unwrap()
}

fn dep(name: &str, req: &str) -> Dep {
    Dep {
        name: s(name),
        package: None,
        req: s(req),
        features: Vec::new(),
        optional: false,
        default_features: true,
        target: None,
        kind: DepKind::Normal,
    }
}

fn rec(name: &str, vers: &str, deps: Vec<Dep>) -> Crate {
    Crate {
        name: s(name),
        vers: s(vers),
        deps,
        cksum: s("0000"),
        features: Vec::new(),
        yanked: false,
    }
}

/// Drain the engine as the coordinator would: run queued derivation passes,
/// answer every fetch request from `lookup`, and stop when nothing is
/// pending. Returns the first error, as `process_all` does.
fn drive(
    e: &mut Exploration,
    lookup: &mut dyn FnMut(&str) -> Vec<Crate>,
) -> Result<(), ExploreError> {
    loop {
        loop {
            match e.process_ready() {
                Ok(true) => {},
                Ok(false) => break,
                Err(err) => return Err(err),
            }
        }
        let fetches = e.take_fetches();
        if fetches.is_empty() {
            if e.has_ready() {
                continue;
            }
            assert!(!e.awaiting_fetch());
            return Ok(());
        }
        for name in fetches {
            let recs = lookup(&name);
            e.on_fetch_result(Ok((name, recs)))?;
        }
    }
}

fn discovered(e: &Exploration) -> Vec<String> {
    let mut names = e.done_names();
    names.sort();
    names
}

#[test]
fn enqueue_is_idempotent_for_identical_demand() {
    let mut e = Exploration::new();
    e.enqueue(s("leaf"), demand(&["default"], &["*"])).unwrap();
    let first = e.take_fetches();
    assert_eq!(first, vec![s("leaf")]);
    // identical resubmission: no new fetch, no new derivation pass
    e.enqueue(s("leaf"), demand(&["default"], &["*"])).unwrap();
    assert!(e.take_fetches().is_empty());
    assert!(!e.has_ready());
    // data arrives; the single pending pass runs
    e.on_fetch_result(Ok((s("leaf"), vec![rec("leaf", "1.0.0", vec![])]))).unwrap();
    assert!(e.has_ready());
    assert!(e.process_ready().unwrap());
    assert!(!e.process_ready().unwrap());
    // a third identical request is a no-op even with data cached
    e.enqueue(s("leaf"), demand(&["default"], &["*"])).unwrap();
    assert!(e.take_fetches().is_empty());
    assert!(!e.has_ready());
}

#[test]
fn disjoint_ranges_select_with_or_semantics() {
    let mut e = Exploration::new();
    e.enqueue(s("pkg"), demand(&["default"], &["^1"])).unwrap();
    e.enqueue(s("pkg"), demand(&["default"], &["^3"])).unwrap();
    let mut lookup = |name: &str| -> Vec<Crate> {
        match name {
            "pkg" => vec![
                rec("pkg", "1.0.0", vec![dep("one_dep", "*")]),
                rec("pkg", "2.0.0", vec![dep("two_dep", "*")]),
                rec("pkg", "3.0.0", vec![dep("three_dep", "*")]),
            ],
            _ => vec![rec(name, "1.0.0", vec![])],
        }
    };
    drive(&mut e, &mut lookup).unwrap();
    let names = discovered(&e);
    assert_eq!(names, vec![s("one_dep"), s("pkg"), s("three_dep")]);
}

#[test]
fn optional_and_dev_edges_are_excluded() {
    let mut e = Exploration::new();
    e.enqueue(s("app"), demand(&["default"], &["*"])).unwrap();
    let mut lookup = |name: &str| -> Vec<Crate> {
        match name {
            "app" => {
                let mut opt = dep("ext", "*");
                opt.optional = true;
                let mut devd = dep("testkit", "*");
                devd.kind = DepKind::Dev;
                vec![rec("app", "1.0.0", vec![dep("lib", "^2"), opt, devd])]
            },
            _ => vec![rec(name, "2.0.0", vec![])],
        }
    };
    drive(&mut e, &mut lookup).unwrap();
    assert_eq!(discovered(&e), vec![s("app"), s("lib")]);
}

#[test]
fn feature_token_enables_optional_edge() {
    let mut e = Exploration::new();
    e.enqueue(s("app"), demand(&["default", "ext"], &["*"])).unwrap();
    let mut lookup = |name: &str| -> Vec<Crate> {
        match name {
            "app" => {
                let mut opt = dep("ext", "*");
                opt.optional = true;
                vec![rec("app", "1.0.0", vec![dep("lib", "^2"), opt])]
            },
            _ => vec![rec(name, "2.0.0", vec![])],
        }
    };
    drive(&mut e, &mut lookup).unwrap();
    assert_eq!(discovered(&e), vec![s("app"), s("ext"), s("lib")]);
}

#[test]
fn feature_token_may_enable_by_resolved_key() {
    let mut e = Exploration::new();
    e.enqueue(s("app"), demand(&["real_name"], &["*"])).unwrap();
    let mut lookup = |name: &str| -> Vec<Crate> {
        match name {
            "app" => {
                let mut opt = dep("alias", "*");
                opt.package = Some(s("real_name"));
                opt.optional = true;
                vec![rec("app", "1.0.0", vec![opt])]
            },
            _ => vec![rec(name, "1.0.0", vec![])],
        }
    };
    drive(&mut e, &mut lookup).unwrap();
    assert_eq!(discovered(&e), vec![s("app"), s("real_name")]);
}

#[test]
fn feature_token_suffix_reaches_enabled_dependency() {
    let mut e = Exploration::new();
    e.enqueue(s("app"), demand(&["ext/tls"], &["*"])).unwrap();
    let mut lookup = |name: &str| -> Vec<Crate> {
        match name {
            "app" => {
                let mut opt = dep("ext", "*");
                opt.optional = true;
                vec![rec("app", "1.0.0", vec![opt])]
            },
            _ => vec![rec(name, "1.0.0", vec![])],
        }
    };
    drive(&mut e, &mut lookup).unwrap();
    assert_eq!(discovered(&e), vec![s("app"), s("ext")]);
    let ext = e.done_demand(&s("ext")).unwrap();
    assert!(ext.has_feature(&s("tls")));
}

#[test]
fn default_features_inject_the_default_token() {
    let mut e = Exploration::new();
    e.enqueue(s("app"), demand(&["default"], &["*"])).unwrap();
    let mut lookup = |name: &str| -> Vec<Crate> {
        match name {
            "app" => {
                let with_default = dep("lib", "*");
                let mut bare = dep("minimal", "*");
                bare.default_features = false;
                bare.features = vec![s("extra"), s("")];
                vec![rec("app", "1.0.0", vec![with_default, bare])]
            },
            _ => vec![rec(name, "1.0.0", vec![])],
        }
    };
    drive(&mut e, &mut lookup).unwrap();
    let lib = e.done_demand(&s("lib")).unwrap();
    assert!(lib.has_feature(&s("default")));
    let minimal = e.done_demand(&s("minimal")).unwrap();
    assert!(!minimal.has_feature(&s("default")));
    assert!(minimal.has_feature(&s("extra")));
    assert!(!minimal.has_feature(&s("")));
}

#[test]
fn cyclic_graphs_terminate_through_deduplication() {
    let mut e = Exploration::new();
    e.enqueue(s("a"), demand(&["default"], &["*"])).unwrap();
    let mut lookup = |name: &str| -> Vec<Crate> {
        match name {
            "a" => vec![rec("a", "1.0.0", vec![dep("b", "*")])],
            "b" => vec![rec("b", "1.0.0", vec![dep("a", "*")])],
            _ => vec![],
        }
    };
    drive(&mut e, &mut lookup).unwrap();
    assert_eq!(discovered(&e), vec![s("a"), s("b")]);
}

#[test]
fn single_leaf_is_discovered_with_one_fetch() {
    let mut e = Exploration::new();
    e.enqueue(s("leaf"), demand(&["default"], &["^1.0"])).unwrap();
    let mut fetches: usize = 0;
    let mut lookup = |name: &str| -> Vec<Crate> {
        fetches += 1;
        assert_eq!(name, "leaf");
        vec![rec("leaf", "1.0.0", vec![])]
    };
    drive(&mut e, &mut lookup).unwrap();
    assert_eq!(fetches, 1);
    assert_eq!(discovered(&e), vec![s("leaf")]);
}

#[test]
fn optional_edge_stays_out_without_its_token() {
    let mut e = Exploration::new();
    e.enqueue(s("app"), demand(&["default"], &["*"])).unwrap();
    let mut lookup = |name: &str| -> Vec<Crate> {
        match name {
            "app" => {
                let normal = dep("lib", "^2");
                let mut opt = dep("ext", "*");
                opt.optional = true;
                vec![rec("app", "1.0.0", vec![normal, opt])]
            },
            "lib" => vec![rec("lib", "2.1.0", vec![])],
            _ => vec![rec(name, "1.0.0", vec![])],
        }
    };
    drive(&mut e, &mut lookup).unwrap();
    assert_eq!(discovered(&e), vec![s("app"), s("lib")]);
}

#[test]
fn seed_token_pulls_the_optional_edge_in() {
    let mut e = Exploration::new();
    e.enqueue(s("app"), demand(&["default", "ext"], &["*"])).unwrap();
    let mut lookup = |name: &str| -> Vec<Crate> {
        match name {
            "app" => {
                let normal = dep("lib", "^2");
                let mut opt = dep("ext", "*");
                opt.optional = true;
                vec![rec("app", "1.0.0", vec![normal, opt])]
            },
            "lib" => vec![rec("lib", "2.1.0", vec![])],
            _ => vec![rec(name, "1.0.0", vec![])],
        }
    };
    drive(&mut e, &mut lookup).unwrap();
    assert_eq!(discovered(&e), vec![s("app"), s("ext"), s("lib")]);
}

#[test]
fn malformed_version_in_fetched_record_aborts() {
    let mut e = Exploration::new();
    e.enqueue(s("pkg"), demand(&["default"], &["*"])).unwrap();
    let mut lookup = |_: &str| -> Vec<Crate> { vec![rec("pkg", "one.two", vec![])] };
    let err = drive(&mut e, &mut lookup).unwrap_err();
    match err {
        ExploreError::InvalidSemver { package, vers, .. } => {
            assert_eq!(package, "pkg");
            assert_eq!(vers, "one.two");
        },
        other => panic!("unexpected error {:?}", other),
    }
}

#[test]
fn malformed_edge_requirement_aborts() {
    let mut e = Exploration::new();
    e.enqueue(s("pkg"), demand(&["default"], &["*"])).unwrap();
    let mut lookup = |name: &str| -> Vec<Crate> {
        match name {
            "pkg" => vec![rec("pkg", "1.0.0", vec![dep("lib", "^^nonsense^^")])],
            _ => vec![],
        }
    };
    let err = drive(&mut e, &mut lookup).unwrap_err();
    match err {
        ExploreError::InvalidVersionRequirement { package, dep, req, .. } => {
            assert_eq!(package, "pkg");
            assert_eq!(dep, "lib");
            assert_eq!(req, "^^nonsense^^");
        },
        other => panic!("unexpected error {:?}", other),
    }
}

#[test]
fn parse_failure_from_a_fetch_aborts_unchanged() {
    let mut e = Exploration::new();
    e.enqueue(s("pkg"), demand(&["default"], &["*"])).unwrap();
    let _ = e.take_fetches();
    let err = e
        .on_fetch_result(Err(ExploreError::Parse {
            package: s("pkg"),
            line: s("{\"name\": oops"),
            detail: s("expected value at line 1"),
        }))
        .unwrap_err();
    match err {
        ExploreError::Parse { package, line, .. } => {
            assert_eq!(package, "pkg");
            assert_eq!(line, "{\"name\": oops");
        },
        other => panic!("unexpected error {:?}", other),
    }
}

#[test]
fn fetch_side_errors_pass_through_unchanged() {
    let mut e = Exploration::new();
    e.enqueue(s("pkg"), demand(&["default"], &["*"])).unwrap();
    let _ = e.take_fetches();
    let err = e
        .on_fetch_result(Err(ExploreError::Network { detail: s("connect timeout") }))
        .unwrap_err();
    assert!(matches!(err, ExploreError::Network { .. }));
    let err = e
        .on_fetch_result(Err(ExploreError::HttpStatus { status: 404, detail: s("not found") }))
        .unwrap_err();
    match err {
        ExploreError::HttpStatus { status, .. } => assert_eq!(status, 404),
        other => panic!("unexpected error {:?}", other),
    }
    let err = e
        .on_fetch_result(Err(ExploreError::Channel { detail: s("worker terminated") }))
        .unwrap_err();
    assert!(matches!(err, ExploreError::Channel { .. }));
}

#[test]
fn yanked_and_checksum_fields_are_carried_not_consulted() {
    let mut e = Exploration::new();
    e.enqueue(s("pkg"), demand(&["default"], &["*"])).unwrap();
    let mut lookup = |name: &str| -> Vec<Crate> {
        match name {
            "pkg" => {
                let mut r = rec("pkg", "1.0.0", vec![dep("lib", "*")]);
                r.yanked = true;
                r.features = vec![(s("full"), vec![s("lib/extra")])];
                vec![r]
            },
            _ => vec![rec(name, "1.0.0", vec![])],
        }
    };
    drive(&mut e, &mut lookup).unwrap();
    // the yanked flag and the record's own feature graph do not change the
    // literal-token-only resolution
    assert_eq!(discovered(&e), vec![s("lib"), s("pkg")]);
    let lib = e.done_demand(&s("lib")).unwrap();
    assert!(!lib.has_feature(&s("extra")));
}
