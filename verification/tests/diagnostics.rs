use freshness::diagnostics::conclude;
use freshness::diagnostics::DiagnosticsStep;
use freshness::diagnostics::InstalledPackagesDiagnostic;
use freshness::distribution::Dependency;
use freshness::distribution::InstalledDist;
use freshness::distribution::Interpreter;
use freshness::distribution::Metadata;
use freshness::installed_packages::InstalledPackages;
use freshness::scan::Probed;
use freshness::query::Answer;
use freshness::query::Question;
use freshness::query::Step;
use freshness::requirement::Requirement;
use freshness::requirement::Target;

fn depends(name: &str, version: Option<&str>, text: &str) -> Dependency {
    Dependency {
        name: name.to_string(),
        extras: Vec::new(),
        version: version.map(str::to_string),
        text: text.to_string(),
    }
}

fn dist(name: &str, version: &str, requires: Vec<Dependency>) -> InstalledDist {
    InstalledDist {
        name: name.to_string(),
        version: version.to_string(),
        path: format!("/site-packages/{name}-{version}.dist-info"),
        url: None,
        metadata: Some(Metadata { requires_python: None, requires_dist: requires }),
    }
}

fn build(dists: Vec<InstalledDist>) -> InstalledPackages {
    let interpreter =
        Interpreter { sys_path: vec!["/site-packages".to_string()], python_version: "3.8.10".to_string() };
    let probed = dists.into_iter().map(Probed::Distribution).collect();
    InstalledPackages::from_interpreter(interpreter, probed).ok().unwrap()
}

/// Runs an audit to its end, answering each question with `answer` and
/// noting the questions asked.
fn run(
    mut step: DiagnosticsStep<'_>,
    asked: &mut Vec<Question>,
    answer: &dyn Fn(&Question) -> bool,
) -> Vec<InstalledPackagesDiagnostic> {
    loop {
        match step {
            Step::Done(diagnostics) => return diagnostics,
            Step::Ask { pending, question } => {
                let reply = answer(&question);
                asked.push(question);
                step = pending.resume(Answer::Holds(reply));
            }
        }
    }
}

/// Answers as a tiny environment would: a marker holds unless it mentions
/// `win32`, and a version is contained when the specifiers are `>=` a version
/// that is not above it, compared as text.
fn environment(question: &Question) -> bool {
    match question {
        Question::Applies { requirement, .. } => !requirement.text.contains("win32"),
        Question::Contains { specifiers, version } => match specifiers.strip_prefix(">=") {
            Some(least) => least <= version.as_str(),
            None => false,
        },
        Question::Matches { .. } => true,
    }
}

fn audit(packages: &InstalledPackages) -> Vec<InstalledPackagesDiagnostic> {
    let mut asked = Vec::new();
    run(packages.diagnostics("3.8.10".to_string()), &mut asked, &environment)
}

fn by_package(mut diagnostics: Vec<InstalledPackagesDiagnostic>) -> Vec<InstalledPackagesDiagnostic> {
    diagnostics.sort_by_key(|diagnostic| format!("{diagnostic:?}"));
    diagnostics
}

#[test]
fn healthy_environment_has_no_diagnostics() {
    let packages = build(vec![
        dist("anyio", "4.0", vec![depends("idna", Some(">=2.8"), "idna>=2.8")]),
        dist("idna", "3.6", Vec::new()),
    ]);
    assert!(audit(&packages).is_empty());
}

#[test]
fn empty_environment_has_no_diagnostics() {
    let packages = build(Vec::new());
    let mut asked = Vec::new();
    assert!(run(packages.diagnostics("3.12".to_string()), &mut asked, &environment).is_empty());
    assert!(asked.is_empty());
}

#[test]
fn duplicate_package_gets_one_diagnostic_and_no_other() {
    let packages = build(vec![
        dist("idna", "3.6", vec![depends("missing", None, "missing")]),
        dist("anyio", "4.0", vec![depends("idna", Some(">=9"), "idna>=9")]),
        dist("idna", "2.10", Vec::new()),
    ]);
    let diagnostics = audit(&packages);
    assert_eq!(
        diagnostics,
        vec![InstalledPackagesDiagnostic::DuplicatePackage {
            package: "idna".to_string(),
            paths: vec![
                "/site-packages/idna-3.6.dist-info".to_string(),
                "/site-packages/idna-2.10.dist-info".to_string(),
            ],
        }]
    );
    assert_eq!(diagnostics.iter().filter(|d| d.includes("idna")).count(), 1);
    assert_eq!(packages.get_packages("idna").len(), 2);
}

#[test]
fn unreadable_metadata_is_reported() {
    let mut broken = dist("idna", "3.6", Vec::new());
    broken.metadata = None;
    let packages = build(vec![broken]);
    assert_eq!(
        audit(&packages),
        vec![InstalledPackagesDiagnostic::MetadataUnavailable {
            package: "idna".to_string(),
            path: "/site-packages/idna-3.6.dist-info".to_string(),
        }]
    );
}

#[test]
fn unsupported_python_is_reported_and_dependencies_still_audited() {
    let mut modern = dist("modern", "1.0", vec![depends("missing", None, "missing")]);
    modern.metadata.as_mut().unwrap().requires_python = Some(">=3.9".to_string());
    let packages = build(vec![modern]);
    let mut asked = Vec::new();
    let diagnostics = run(packages.diagnostics("3.8.10.final".to_string()), &mut asked, &environment);
    assert_eq!(
        diagnostics,
        vec![
            InstalledPackagesDiagnostic::IncompatiblePythonVersion {
                package: "modern".to_string(),
                version: "3.8.10".to_string(),
                requires_python: ">=3.9".to_string(),
            },
            InstalledPackagesDiagnostic::MissingDependency {
                package: "modern".to_string(),
                requirement: depends("missing", None, "missing"),
            },
        ]
    );
    assert_eq!(
        asked[0],
        Question::Contains { specifiers: ">=3.9".to_string(), version: "3.8.10.final".to_string() }
    );
}

#[test]
fn supported_python_is_not_reported() {
    let mut old = dist("old", "1.0", Vec::new());
    old.metadata.as_mut().unwrap().requires_python = Some(">=3.7".to_string());
    let packages = build(vec![old]);
    assert!(audit(&packages).is_empty());
}

#[test]
fn missing_dependency_is_reported() {
    let packages = build(vec![dist("anyio", "4.0", vec![depends("idna", Some(">=2.8"), "idna>=2.8")])]);
    assert_eq!(
        audit(&packages),
        vec![InstalledPackagesDiagnostic::MissingDependency {
            package: "anyio".to_string(),
            requirement: depends("idna", Some(">=2.8"), "idna>=2.8"),
        }]
    );
}

#[test]
fn excluded_version_is_reported() {
    let packages = build(vec![
        dist("anyio", "4.0", vec![depends("idna", Some(">=4"), "idna>=4")]),
        dist("idna", "3.6", Vec::new()),
    ]);
    let mut asked = Vec::new();
    let diagnostics = run(packages.diagnostics("3.8.10".to_string()), &mut asked, &environment);
    assert_eq!(
        diagnostics,
        vec![InstalledPackagesDiagnostic::IncompatibleDependency {
            package: "anyio".to_string(),
            version: "3.6".to_string(),
            requirement: depends("idna", Some(">=4"), "idna>=4"),
        }]
    );
    assert!(asked.contains(&Question::Contains { specifiers: ">=4".to_string(), version: "3.6".to_string() }));
    assert!(asked.contains(&Question::Applies {
        requirement: Requirement {
            target: Target::Name("idna".to_string()),
            extras: Vec::new(),
            text: "idna>=4".to_string(),
        },
        extras: Vec::new(),
    }));
}

#[test]
fn dependency_without_specifiers_accepts_any_version() {
    let packages = build(vec![
        dist("anyio", "4.0", vec![depends("idna", None, "idna @ https://example.org/idna.whl")]),
        dist("idna", "0.1", Vec::new()),
    ]);
    let mut asked = Vec::new();
    let diagnostics = run(packages.diagnostics("3.8.10".to_string()), &mut asked, &environment);
    assert!(diagnostics.is_empty());
    assert!(asked.iter().all(|question| !matches!(question, Question::Contains { .. })));
}

#[test]
fn dependency_whose_markers_fail_is_passed_over() {
    let packages = build(vec![dist(
        "click",
        "8.1",
        vec![depends("colorama", None, "colorama ; sys_platform == 'win32'")],
    )]);
    assert!(audit(&packages).is_empty());
}

#[test]
fn dependency_installed_twice_is_not_this_audits_concern() {
    let packages = build(vec![
        dist("anyio", "4.0", vec![depends("idna", Some(">=9"), "idna>=9")]),
        dist("idna", "3.6", Vec::new()),
        dist("idna", "2.10", Vec::new()),
    ]);
    let diagnostics = audit(&packages);
    assert_eq!(diagnostics.len(), 1);
    assert!(matches!(diagnostics[0], InstalledPackagesDiagnostic::DuplicatePackage { .. }));
}

#[test]
fn audit_reports_everything_it_finds() {
    let mut broken = dist("broken", "0.1", Vec::new());
    broken.metadata = None;
    let packages = build(vec![
        dist("anyio", "4.0", vec![
            depends("idna", Some(">=4"), "idna>=4"),
            depends("sniffio", None, "sniffio"),
        ]),
        dist("idna", "3.6", Vec::new()),
        broken,
    ]);
    let expected = by_package(vec![
        InstalledPackagesDiagnostic::IncompatibleDependency {
            package: "anyio".to_string(),
            version: "3.6".to_string(),
            requirement: depends("idna", Some(">=4"), "idna>=4"),
        },
        InstalledPackagesDiagnostic::MissingDependency {
            package: "anyio".to_string(),
            requirement: depends("sniffio", None, "sniffio"),
        },
        InstalledPackagesDiagnostic::MetadataUnavailable {
            package: "broken".to_string(),
            path: "/site-packages/broken-0.1.dist-info".to_string(),
        },
    ]);
    assert_eq!(by_package(audit(&packages)), expected);
}

#[test]
fn removed_package_is_passed_over_and_missed_by_its_dependants() {
    let mut packages = build(vec![
        dist("anyio", "4.0", vec![depends("idna", None, "idna")]),
        dist("idna", "3.6", vec![depends("nothing", None, "nothing")]),
    ]);
    packages.remove_packages("idna");
    assert_eq!(
        audit(&packages),
        vec![InstalledPackagesDiagnostic::MissingDependency {
            package: "anyio".to_string(),
            requirement: depends("idna", None, "idna"),
        }]
    );
}

#[test]
fn diagnostic_includes_the_package_it_is_about() {
    let missing = InstalledPackagesDiagnostic::MissingDependency {
        package: "anyio".to_string(),
        requirement: depends("idna", None, "idna"),
    };
    assert!(missing.includes("anyio"));
    assert!(!missing.includes("idna"));
    let unreadable = InstalledPackagesDiagnostic::MetadataUnavailable {
        package: "anyio".to_string(),
        path: "/p".to_string(),
    };
    assert!(unreadable.includes("anyio"));
    assert!(!unreadable.includes("/p"));
    let python = InstalledPackagesDiagnostic::IncompatiblePythonVersion {
        package: "anyio".to_string(),
        version: "3.8".to_string(),
        requires_python: ">=3.9".to_string(),
    };
    assert!(python.includes("anyio"));
    assert!(!python.includes("3.8"));
    let duplicate =
        InstalledPackagesDiagnostic::DuplicatePackage { package: "anyio".to_string(), paths: Vec::new() };
    assert!(duplicate.includes("anyio"));
    assert!(!duplicate.includes("idna"));
}

#[test]
fn incompatible_dependency_includes_both_packages() {
    let incompatible = InstalledPackagesDiagnostic::IncompatibleDependency {
        package: "anyio".to_string(),
        version: "3.6".to_string(),
        requirement: depends("idna", Some(">=4"), "idna>=4"),
    };
    assert!(incompatible.includes("anyio"));
    assert!(incompatible.includes("idna"));
    assert!(!incompatible.includes("sniffio"));
}

#[test]
fn message_of_unreadable_metadata() {
    let diagnostic = InstalledPackagesDiagnostic::MetadataUnavailable {
        package: "idna".to_string(),
        path: "/site-packages/idna-3.6.dist-info".to_string(),
    };
    assert_eq!(
        diagnostic.message(),
        "The package `idna` is broken or incomplete (unable to read `METADATA`). Consider recreating the virtualenv, or removing the package directory at: /site-packages/idna-3.6.dist-info."
    );
}

#[test]
fn message_of_unsupported_python() {
    let diagnostic = InstalledPackagesDiagnostic::IncompatiblePythonVersion {
        package: "modern".to_string(),
        version: "3.8.10".to_string(),
        requires_python: ">=3.9".to_string(),
    };
    assert_eq!(
        diagnostic.message(),
        "The package `modern` requires Python >=3.9, but `3.8.10` is installed"
    );
}

#[test]
fn message_of_missing_dependency() {
    let diagnostic = InstalledPackagesDiagnostic::MissingDependency {
        package: "anyio".to_string(),
        requirement: depends("idna", Some(">=2.8"), "idna>=2.8"),
    };
    assert_eq!(diagnostic.message(), "The package `anyio` requires `idna>=2.8`, but it's not installed");
}

#[test]
fn message_of_excluded_version() {
    let diagnostic = InstalledPackagesDiagnostic::IncompatibleDependency {
        package: "anyio".to_string(),
        version: "3.6".to_string(),
        requirement: depends("idna", Some(">=4"), "idna>=4"),
    };
    assert_eq!(diagnostic.message(), "The package `anyio` requires `idna>=4`, but `3.6` is installed");
}

#[test]
fn message_of_duplicate_lists_paths_in_ascending_order() {
    let diagnostic = InstalledPackagesDiagnostic::DuplicatePackage {
        package: "idna".to_string(),
        paths: vec![
            "/site-packages/idna-3.6.dist-info".to_string(),
            "/site-packages/idna-2.10.dist-info".to_string(),
            "/other/idna-3.6.dist-info".to_string(),
        ],
    };
    assert_eq!(
        diagnostic.message(),
        "The package `idna` has multiple installed distributions: \n  - /other/idna-3.6.dist-info\n  - /site-packages/idna-2.10.dist-info\n  - /site-packages/idna-3.6.dist-info"
    );
    let none = InstalledPackagesDiagnostic::DuplicatePackage { package: "idna".to_string(), paths: Vec::new() };
    assert_eq!(none.message(), "The package `idna` has multiple installed distributions: ");
}

#[test]
fn conclude_runs_the_audit_to_its_diagnostics() {
    let packages = build(vec![
        dist("anyio", "4.0", vec![depends("idna", Some(">=4"), "idna>=4")]),
        dist("idna", "3.6", Vec::new()),
    ]);
    let diagnostics: Result<_, ()> = conclude(packages.diagnostics("3.8.10".to_string()), |question| {
        Ok(Answer::Holds(environment(question)))
    });
    assert_eq!(
        diagnostics,
        Ok(vec![InstalledPackagesDiagnostic::IncompatibleDependency {
            package: "anyio".to_string(),
            version: "3.6".to_string(),
            requirement: depends("idna", Some(">=4"), "idna>=4"),
        }])
    );
}

#[test]
fn conclude_gives_up_the_audit_when_an_answer_fails() {
    let packages = build(vec![dist("anyio", "4.0", vec![depends("idna", Some("~~4"), "idna~~4")])]);
    let diagnostics = conclude(packages.diagnostics("3.8.10".to_string()), |question| match question {
        Question::Applies { requirement, .. } if requirement.text.contains("~~") => {
            Err(format!("cannot parse {}", requirement.text))
        }
        other => Ok(Answer::Holds(environment(other))),
    });
    assert_eq!(diagnostics, Err("cannot parse idna~~4".to_string()));
}

#[test]
fn diagnostics_with_answers_audits_in_one_call() {
    let mut modern = dist("modern", "1.0", vec![depends("missing", None, "missing")]);
    modern.metadata.as_mut().unwrap().requires_python = Some(">=3.9".to_string());
    let packages = build(vec![modern]);
    let diagnostics: Result<_, ()> =
        packages.diagnostics_with("3.8.10".to_string(), |question| Ok(Answer::Holds(environment(question))));
    assert_eq!(
        diagnostics,
        Ok(vec![
            InstalledPackagesDiagnostic::IncompatiblePythonVersion {
                package: "modern".to_string(),
                version: "3.8.10".to_string(),
                requires_python: ">=3.9".to_string(),
            },
            InstalledPackagesDiagnostic::MissingDependency {
                package: "modern".to_string(),
                requirement: depends("missing", None, "missing"),
            },
        ])
    );
}

#[test]
fn message_of_duplicate_orders_paths_as_text() {
    let diagnostic = InstalledPackagesDiagnostic::DuplicatePackage {
        package: "idna".to_string(),
        paths: vec!["/x/a/b".to_string(), "/x/a-b".to_string()],
    };
    assert_eq!(
        diagnostic.message(),
        "The package `idna` has multiple installed distributions: \n  - /x/a-b\n  - /x/a/b"
    );
}

#[test]
fn audit_that_asks_nothing_comes_to_its_diagnostics_whatever_the_answers() {
    let mut broken = dist("broken", "0.1", Vec::new());
    broken.metadata = None;
    let packages = build(vec![broken, dist("plain", "1.0", Vec::new())]);
    let diagnostics = packages.diagnostics_with("3.12".to_string(), |_| Err("never asked".to_string()));
    assert_eq!(
        diagnostics,
        Ok(vec![InstalledPackagesDiagnostic::MetadataUnavailable {
            package: "broken".to_string(),
            path: "/site-packages/broken-0.1.dist-info".to_string(),
        }])
    );
}

#[test]
fn duplicate_is_not_reported_missing_or_excluded_by_its_dependants() {
    let packages = build(vec![
        dist("idna", "3.6", Vec::new()),
        dist("anyio", "4.0", vec![depends("idna", Some(">=9"), "idna>=9")]),
        dist("idna", "2.10", Vec::new()),
        dist("httpx", "0.27", vec![depends("idna", None, "idna")]),
    ]);
    let diagnostics: Result<_, ()> =
        packages.diagnostics_with("3.8.10".to_string(), |question| Ok(Answer::Holds(environment(question))));
    assert_eq!(
        diagnostics,
        Ok(vec![InstalledPackagesDiagnostic::DuplicatePackage {
            package: "idna".to_string(),
            paths: vec![
                "/site-packages/idna-3.6.dist-info".to_string(),
                "/site-packages/idna-2.10.dist-info".to_string(),
            ],
        }])
    );
}
