use freshness::distribution::Dependency;
use freshness::distribution::InstalledDist;
use freshness::distribution::Interpreter;
use freshness::distribution::Metadata;
use freshness::installed_packages::InstalledPackages;
use freshness::scan::Probed;
use freshness::query::Answer;
use freshness::query::Question;
use freshness::query::Satisfaction;
use freshness::query::Step;
use freshness::requirement::Requirement;
use freshness::requirement::Target;
use freshness::satisfies::conclude;
use freshness::satisfies::SatisfiesResult;
use freshness::satisfies::SatisfiesStep;

fn named(name: &str) -> Requirement {
    Requirement { target: Target::Name(name.to_string()), extras: Vec::new(), text: name.to_string() }
}

fn written(name: &str, text: &str) -> Requirement {
    Requirement { target: Target::Name(name.to_string()), extras: Vec::new(), text: text.to_string() }
}

fn with_extras(name: &str, extras: &[&str], text: &str) -> Requirement {
    Requirement {
        target: Target::Name(name.to_string()),
        extras: extras.iter().map(|e| e.to_string()).collect(),
        text: text.to_string(),
    }
}

fn from_url(url: &str) -> Requirement {
    Requirement { target: Target::Url(url.to_string()), extras: Vec::new(), text: url.to_string() }
}

fn depends(name: &str) -> Dependency {
    Dependency { name: name.to_string(), extras: Vec::new(), version: None, text: name.to_string() }
}

fn depends_if(name: &str, text: &str) -> Dependency {
    Dependency { name: name.to_string(), extras: Vec::new(), version: None, text: text.to_string() }
}

fn dist(name: &str, version: &str, requires: Vec<Dependency>) -> InstalledDist {
    InstalledDist {
        name: name.to_string(),
        version: version.to_string(),
        path: format!("/site-packages/{name}-{version}.dist-info"),
        url: None,
        metadata: Some(Metadata { requires_python: None, requires_dist: requires }),
    }
}

fn build(dists: Vec<InstalledDist>) -> InstalledPackages {
    let interpreter =
        Interpreter { sys_path: vec!["/site-packages".to_string()], python_version: "3.12.1".to_string() };
    let probed = dists.into_iter().map(Probed::Distribution).collect();
    InstalledPackages::from_interpreter(interpreter, probed).ok().unwrap()
}

/// Runs a walk to its end, answering each question with `answer` and noting
/// the questions asked.
fn run(
    mut step: SatisfiesStep<'_>,
    asked: &mut Vec<Question>,
    answer: &dyn Fn(&Question) -> Answer,
) -> SatisfiesResult {
    loop {
        match step {
            Step::Done(result) => return result,
            Step::Ask { pending, question } => {
                let reply = answer(&question);
                asked.push(question);
                step = pending.resume(reply);
            }
        }
    }
}

fn agree(question: &Question) -> Answer {
    match question {
        Question::Matches { .. } => Answer::Checked(Satisfaction::Satisfied),
        _ => Answer::Holds(true),
    }
}

fn fresh(requirements: Vec<Requirement>) -> SatisfiesResult {
    SatisfiesResult::Fresh { recursive_requirements: requirements }
}

fn unsatisfied(text: &str) -> SatisfiesResult {
    SatisfiesResult::Unsatisfied(text.to_string())
}

#[test]
fn no_requirements_are_satisfied_at_once() {
    let packages = build(vec![dist("idna", "3.6", Vec::new())]);
    let mut asked = Vec::new();
    let result = run(packages.satisfies(Vec::new(), vec![named("idna")]), &mut asked, &agree);
    assert_eq!(result, fresh(Vec::new()));
    assert!(asked.is_empty());
}

#[test]
fn requirement_on_a_missing_package_is_unsatisfied() {
    let packages = build(vec![dist("idna", "3.6", Vec::new())]);
    let mut asked = Vec::new();
    let requirement = written("requests", "requests>=2.0");
    let result = run(packages.satisfies(vec![requirement.clone()], Vec::new()), &mut asked, &agree);
    assert_eq!(result, unsatisfied("requests>=2.0"));
    assert_eq!(asked, vec![Question::Applies { requirement, extras: Vec::new() }]);
}

#[test]
fn requirement_on_an_empty_environment_is_unsatisfied() {
    let packages = build(Vec::new());
    let mut asked = Vec::new();
    let result = run(packages.satisfies(vec![named("idna")], Vec::new()), &mut asked, &agree);
    assert_eq!(result, unsatisfied("idna"));
}

#[test]
fn satisfied_requirement_is_fresh() {
    let packages = build(vec![dist("idna", "3.6", Vec::new())]);
    let mut asked = Vec::new();
    let requirement = written("idna", "idna>=3");
    let result = run(packages.satisfies(vec![requirement.clone()], Vec::new()), &mut asked, &agree);
    assert_eq!(result, fresh(vec![requirement.clone()]));
    assert_eq!(
        asked,
        vec![
            Question::Applies { requirement: requirement.clone(), extras: Vec::new() },
            Question::Matches { distribution: 0, requirement },
        ]
    );
}

#[test]
fn requirement_whose_markers_fail_is_dropped() {
    let packages = build(Vec::new());
    let mut asked = Vec::new();
    let result = run(
        packages.satisfies(vec![written("pywin32", "pywin32 ; sys_platform == 'win32'")], Vec::new()),
        &mut asked,
        &|question| match question {
            Question::Applies { .. } => Answer::Holds(false),
            _ => Answer::Checked(Satisfaction::Satisfied),
        },
    );
    assert_eq!(result, fresh(Vec::new()));
    assert_eq!(asked.len(), 1);
}

#[test]
fn mismatched_source_is_unsatisfied() {
    let packages = build(vec![dist("idna", "3.6", Vec::new())]);
    let mut asked = Vec::new();
    let result = run(
        packages.satisfies(vec![written("idna", "idna==2.10")], Vec::new()),
        &mut asked,
        &|question| match question {
            Question::Matches { .. } => Answer::Checked(Satisfaction::Mismatch),
            _ => Answer::Holds(true),
        },
    );
    assert_eq!(result, unsatisfied("idna==2.10"));
}

#[test]
fn out_of_date_source_is_unsatisfied() {
    let packages = build(vec![dist("project", "0.1.0", vec![depends("idna")])]);
    let mut asked = Vec::new();
    let result = run(
        packages.satisfies(vec![written("project", "project @ file:///src/project")], Vec::new()),
        &mut asked,
        &|question| match question {
            Question::Matches { .. } => Answer::Checked(Satisfaction::OutOfDate),
            _ => Answer::Holds(true),
        },
    );
    assert_eq!(result, unsatisfied("project @ file:///src/project"));
    assert_eq!(asked.len(), 2);
}

#[test]
fn constraint_vetoes_a_candidate_its_requirement_accepts() {
    let packages = build(vec![dist("idna", "3.6", Vec::new())]);
    let mut asked = Vec::new();
    let requirement = written("idna", "idna");
    let unrelated = written("anyio", "anyio<4");
    let constraint = written("idna", "idna<3");
    let result = run(
        packages.satisfies(vec![requirement.clone()], vec![unrelated, constraint.clone()]),
        &mut asked,
        &|question| match question {
            Question::Matches { requirement, .. } => {
                if requirement.text == "idna<3" {
                    Answer::Checked(Satisfaction::Mismatch)
                } else {
                    Answer::Checked(Satisfaction::Satisfied)
                }
            }
            _ => Answer::Holds(true),
        },
    );
    assert_eq!(result, unsatisfied("idna"));
    assert_eq!(
        asked,
        vec![
            Question::Applies { requirement: requirement.clone(), extras: Vec::new() },
            Question::Matches { distribution: 0, requirement },
            Question::Matches { distribution: 0, requirement: constraint },
        ]
    );
}

#[test]
fn every_constraint_of_the_name_is_enforced() {
    let packages = build(vec![dist("idna", "3.6", Vec::new())]);
    let mut asked = Vec::new();
    let result = run(
        packages.satisfies(
            vec![named("idna")],
            vec![written("idna", "idna>=3"), written("idna", "idna!=3.6"), written("idna", "idna<4")],
        ),
        &mut asked,
        &|question| match question {
            Question::Matches { requirement, .. } => {
                if requirement.text == "idna!=3.6" {
                    Answer::Checked(Satisfaction::Mismatch)
                } else {
                    Answer::Checked(Satisfaction::Satisfied)
                }
            }
            _ => Answer::Holds(true),
        },
    );
    assert_eq!(result, unsatisfied("idna"));
    assert_eq!(asked.len(), 4);
}

#[test]
fn satisfied_constraints_let_the_walk_go_on() {
    let packages = build(vec![dist("idna", "3.6", Vec::new())]);
    let mut asked = Vec::new();
    let result = run(
        packages.satisfies(vec![named("idna")], vec![written("idna", "idna>=3"), from_url("file:///x")]),
        &mut asked,
        &agree,
    );
    assert_eq!(result, fresh(vec![named("idna")]));
    assert_eq!(asked.len(), 3);
}

#[test]
fn same_name_installed_twice_is_unsatisfied() {
    let packages = build(vec![dist("idna", "3.6", Vec::new()), dist("idna", "3.6", Vec::new())]);
    let mut asked = Vec::new();
    let result = run(packages.satisfies(vec![named("idna")], Vec::new()), &mut asked, &agree);
    assert_eq!(result, unsatisfied("idna"));
    assert_eq!(asked.len(), 1);
}

#[test]
fn diamond_is_fresh_and_visits_the_shared_dependency_once() {
    let packages = build(vec![
        dist("a", "1", vec![depends("b"), depends("c")]),
        dist("b", "1", vec![depends("d")]),
        dist("c", "1", vec![depends("d")]),
        dist("d", "1", Vec::new()),
    ]);
    let mut asked = Vec::new();
    let result = run(packages.satisfies(vec![named("a")], Vec::new()), &mut asked, &agree);
    assert_eq!(result, fresh(vec![named("a"), named("b"), named("c"), named("d")]));
    let visits_of_d = asked
        .iter()
        .filter(|question| matches!(question, Question::Matches { distribution: 3, .. }))
        .count();
    assert_eq!(visits_of_d, 1);
    let visits: Vec<usize> = asked
        .iter()
        .filter_map(|question| match question {
            Question::Matches { distribution, .. } => Some(*distribution),
            _ => None,
        })
        .collect();
    assert_eq!(visits, vec![0, 2, 3, 1]);
}

#[test]
fn missing_transitive_dependency_is_unsatisfied() {
    let packages = build(vec![
        dist("a", "1", vec![depends("b")]),
        dist("b", "1", vec![depends_if("missing", "missing>=1")]),
    ]);
    let mut asked = Vec::new();
    let result = run(packages.satisfies(vec![named("a")], Vec::new()), &mut asked, &agree);
    assert_eq!(result, unsatisfied("missing>=1"));
}

#[test]
fn dependency_whose_markers_fail_is_not_followed() {
    let packages = build(vec![dist(
        "a",
        "1",
        vec![depends_if("colorama", "colorama ; sys_platform == 'win32'"), depends("b")],
    ), dist("b", "1", Vec::new())]);
    let mut asked = Vec::new();
    let result = run(
        packages.satisfies(vec![named("a")], Vec::new()),
        &mut asked,
        &|question| match question {
            Question::Applies { requirement, .. } => Answer::Holds(!requirement.text.contains("win32")),
            _ => Answer::Checked(Satisfaction::Satisfied),
        },
    );
    assert_eq!(result, fresh(vec![named("a"), named("b")]));
}

#[test]
fn dependency_markers_see_the_extras_of_the_requirement() {
    let packages = build(vec![
        dist("requests", "2.31", vec![depends_if("pysocks", "pysocks ; extra == 'socks'")]),
        dist("pysocks", "1.7", Vec::new()),
    ]);
    let mut asked = Vec::new();
    let root = with_extras("requests", &["socks"], "requests[socks]");
    let result = run(
        packages.satisfies(vec![root.clone()], Vec::new()),
        &mut asked,
        &|question| match question {
            Question::Applies { requirement, extras } => {
                Answer::Holds(!requirement.text.contains("extra") || extras.contains(&"socks".to_string()))
            }
            _ => Answer::Checked(Satisfaction::Satisfied),
        },
    );
    assert_eq!(result, fresh(vec![root.clone(), written("pysocks", "pysocks ; extra == 'socks'")]));
    assert_eq!(
        asked[2],
        Question::Applies {
            requirement: written("pysocks", "pysocks ; extra == 'socks'"),
            extras: vec!["socks".to_string()],
        }
    );

    let mut asked = Vec::new();
    let plain = named("requests");
    let result = run(
        packages.satisfies(vec![plain.clone()], Vec::new()),
        &mut asked,
        &|question| match question {
            Question::Applies { requirement, extras } => {
                Answer::Holds(!requirement.text.contains("extra") || extras.contains(&"socks".to_string()))
            }
            _ => Answer::Checked(Satisfaction::Satisfied),
        },
    );
    assert_eq!(result, fresh(vec![plain]));
}

#[test]
fn same_requirement_given_twice_is_visited_once() {
    let packages = build(vec![dist("idna", "3.6", Vec::new())]);
    let mut asked = Vec::new();
    let result = run(packages.satisfies(vec![named("idna"), named("idna")], Vec::new()), &mut asked, &agree);
    assert_eq!(result, fresh(vec![named("idna")]));
    assert_eq!(asked.len(), 3);
}

#[test]
fn requirements_that_differ_in_extras_are_both_visited() {
    let packages = build(vec![dist("idna", "3.6", Vec::new())]);
    let mut asked = Vec::new();
    let plain = named("idna");
    let extra = with_extras("idna", &["speedups"], "idna");
    let result =
        run(packages.satisfies(vec![plain.clone(), extra.clone()], Vec::new()), &mut asked, &agree);
    assert_eq!(result, fresh(vec![plain, extra]));
    assert_eq!(asked.len(), 4);
}

#[test]
fn last_given_requirement_is_visited_first() {
    let packages = build(vec![dist("idna", "3.6", Vec::new())]);
    let mut asked = Vec::new();
    let result = run(
        packages.satisfies(vec![written("gone", "gone==1"), written("lost", "lost==2")], Vec::new()),
        &mut asked,
        &agree,
    );
    assert_eq!(result, unsatisfied("lost==2"));
}

#[test]
fn cycle_of_dependencies_ends() {
    let packages = build(vec![dist("a", "1", vec![depends("b")]), dist("b", "1", vec![depends("a")])]);
    let mut asked = Vec::new();
    let result = run(packages.satisfies(vec![named("a")], Vec::new()), &mut asked, &agree);
    assert_eq!(result, fresh(vec![named("a"), named("b")]));
}

#[test]
fn url_requirement_is_met_by_the_install_from_that_url() {
    let mut project = dist("project", "0.1.0", Vec::new());
    project.url = Some("file:///src/project".to_string());
    let packages = build(vec![dist("idna", "3.6", Vec::new()), project]);
    let mut asked = Vec::new();
    let requirement = from_url("file:///src/project");
    let result = run(packages.satisfies(vec![requirement.clone()], Vec::new()), &mut asked, &agree);
    assert_eq!(result, fresh(vec![requirement.clone()]));
    assert_eq!(asked[1], Question::Matches { distribution: 1, requirement });
    let mut asked = Vec::new();
    let result = run(packages.satisfies(vec![from_url("file:///src/other")], Vec::new()), &mut asked, &agree);
    assert_eq!(result, unsatisfied("file:///src/other"));
}

#[test]
fn unreadable_metadata_is_unsatisfied() {
    let mut broken = dist("idna", "3.6", Vec::new());
    broken.metadata = None;
    let packages = build(vec![dist("anyio", "4.0", Vec::new()), broken]);
    let mut asked = Vec::new();
    let requirement = written("idna", "idna>=3");
    let result = run(packages.satisfies(vec![requirement.clone()], Vec::new()), &mut asked, &agree);
    assert_eq!(result, unsatisfied("idna>=3"));
    assert_eq!(
        asked,
        vec![
            Question::Applies { requirement: requirement.clone(), extras: Vec::new() },
            Question::Matches { distribution: 1, requirement },
        ]
    );
}

#[test]
fn unreadable_metadata_is_looked_at_after_the_constraints() {
    let mut broken = dist("idna", "3.6", Vec::new());
    broken.metadata = None;
    let packages = build(vec![broken]);
    let mut asked = Vec::new();
    let result = run(
        packages.satisfies(vec![named("idna")], vec![written("idna", "idna<4")]),
        &mut asked,
        &agree,
    );
    assert_eq!(result, unsatisfied("idna"));
    assert_eq!(asked.len(), 3);
}

#[test]
fn unreadable_metadata_of_a_dependency_is_unsatisfied() {
    let mut broken = dist("b", "1", Vec::new());
    broken.metadata = None;
    let packages = build(vec![dist("a", "1", vec![depends_if("b", "b>=1")]), broken]);
    let verdict: Result<_, ()> =
        conclude(packages.satisfies(vec![named("a")], Vec::new()), |question| Ok(agree(question)));
    assert_eq!(verdict, Ok(unsatisfied("b>=1")));
}

#[test]
fn removed_package_no_longer_satisfies() {
    let mut packages = build(vec![dist("idna", "3.6", Vec::new()), dist("anyio", "4.0", Vec::new())]);
    packages.remove_packages("idna");
    let mut asked = Vec::new();
    let result = run(packages.satisfies(vec![named("anyio"), named("idna")], Vec::new()), &mut asked, &agree);
    assert_eq!(result, unsatisfied("idna"));
    let mut asked = Vec::new();
    let result = run(packages.satisfies(vec![named("anyio")], Vec::new()), &mut asked, &agree);
    assert_eq!(result, fresh(vec![named("anyio")]));
}

#[test]
fn answer_of_the_other_kind_counts_as_yes_or_no() {
    assert!(Answer::Holds(true).is_affirmative());
    assert!(!Answer::Holds(false).is_affirmative());
    assert!(Answer::Checked(Satisfaction::Satisfied).is_affirmative());
    assert!(!Answer::Checked(Satisfaction::Mismatch).is_affirmative());
    assert!(!Answer::Checked(Satisfaction::OutOfDate).is_affirmative());
    let packages = build(vec![dist("idna", "3.6", Vec::new())]);
    let mut asked = Vec::new();
    let result =
        run(packages.satisfies(vec![named("idna")], Vec::new()), &mut asked, &|_| Answer::Holds(true));
    assert_eq!(result, fresh(vec![named("idna")]));
}

#[test]
fn conclude_runs_the_walk_to_its_verdict() {
    let packages = build(vec![
        dist("a", "1", vec![depends("b"), depends("c")]),
        dist("b", "1", vec![depends("d")]),
        dist("c", "1", vec![depends("d")]),
        dist("d", "1", Vec::new()),
    ]);
    let verdict: Result<_, ()> = conclude(packages.satisfies(vec![named("a")], Vec::new()), |question| {
        Ok(agree(question))
    });
    assert_eq!(verdict, Ok(fresh(vec![named("a"), named("b"), named("c"), named("d")])));
    let verdict: Result<_, ()> = conclude(packages.satisfies(vec![named("e")], Vec::new()), |question| {
        Ok(agree(question))
    });
    assert_eq!(verdict, Ok(unsatisfied("e")));
}

#[test]
fn conclude_gives_up_when_an_answer_fails() {
    let packages = build(vec![dist("a", "1", vec![depends("b")]), dist("b", "1", Vec::new())]);
    let verdict = conclude(packages.satisfies(vec![named("a")], Vec::new()), |question| match question {
        Question::Matches { distribution: 1, .. } => Err("cannot inspect b".to_string()),
        other => Ok(agree(other)),
    });
    assert_eq!(verdict, Err("cannot inspect b".to_string()));
}

#[test]
fn conclude_asks_nothing_past_the_first_failure() {
    let packages = build(vec![dist("a", "1", vec![depends("b")]), dist("b", "1", Vec::new())]);
    let asked = std::cell::RefCell::new(Vec::new());
    let verdict: Result<_, ()> = conclude(
        packages.satisfies(vec![named("a"), named("missing")], Vec::new()),
        |question| {
            asked.borrow_mut().push(question.clone());
            Ok(agree(question))
        },
    );
    assert_eq!(verdict, Ok(unsatisfied("missing")));
    assert_eq!(asked.borrow().len(), 2);
}

#[test]
fn satisfies_with_answers_decides_in_one_call() {
    let packages = build(vec![
        dist("requests", "2.31", vec![depends("idna"), depends_if("pysocks", "pysocks ; extra == 'socks'")]),
        dist("idna", "3.6", Vec::new()),
    ]);
    let environment = |question: &Question| -> Result<Answer, String> {
        Ok(match question {
            Question::Applies { requirement, extras } => {
                Answer::Holds(!requirement.text.contains("extra") || extras.contains(&"socks".to_string()))
            }
            Question::Matches { requirement, .. } => {
                if requirement.text == "idna<3" {
                    Answer::Checked(Satisfaction::Mismatch)
                } else {
                    Answer::Checked(Satisfaction::Satisfied)
                }
            }
            Question::Contains { .. } => Answer::Holds(false),
        })
    };
    assert_eq!(
        packages.satisfies_with(vec![named("requests")], Vec::new(), environment),
        Ok(fresh(vec![named("requests"), named("idna")]))
    );
    assert_eq!(
        packages.satisfies_with(vec![named("requests")], vec![written("idna", "idna<3")], environment),
        Ok(unsatisfied("idna"))
    );
    assert_eq!(
        packages.satisfies_with(
            vec![with_extras("requests", &["socks"], "requests[socks]")],
            Vec::new(),
            environment
        ),
        Ok(unsatisfied("pysocks ; extra == 'socks'"))
    );
}

#[test]
fn walk_that_asks_nothing_comes_to_its_verdict_whatever_the_answers() {
    let packages = build(vec![dist("a", "1", Vec::new())]);
    let verdict = packages.satisfies_with(Vec::new(), vec![named("a")], |_| Err("never asked".to_string()));
    assert_eq!(verdict, Ok(fresh(Vec::new())));
    let verdict = conclude(packages.satisfies(Vec::new(), Vec::new()), |_| Err("never asked".to_string()));
    assert_eq!(verdict, Ok(fresh(Vec::new())));
}

#[test]
fn failure_comes_from_a_question_of_the_walk() {
    let packages = build(vec![dist("a", "1", vec![depends("b")]), dist("b", "1", Vec::new())]);
    let verdict = packages.satisfies_with(vec![named("a")], Vec::new(), |question| match question {
        Question::Applies { requirement, .. } if requirement.text == "b" => Err(question.clone()),
        other => Ok(agree(other)),
    });
    assert_eq!(verdict, Err(Question::Applies { requirement: named("b"), extras: Vec::new() }));
}

#[test]
fn diamond_under_constraints_visits_the_shared_dependency_once() {
    let packages = build(vec![
        dist("a", "1", vec![depends("b"), depends("c")]),
        dist("b", "1", vec![depends("d")]),
        dist("c", "1", vec![depends("d")]),
        dist("d", "1", Vec::new()),
    ]);
    let mut asked = Vec::new();
    let constraints = vec![written("d", "d<2"), written("b", "b<2"), written("d", "d>=1")];
    let result = run(packages.satisfies(vec![named("a")], constraints), &mut asked, &agree);
    assert_eq!(result, fresh(vec![named("a"), named("b"), named("c"), named("d")]));
    let on_d: Vec<&str> = asked
        .iter()
        .filter_map(|question| match question {
            Question::Matches { distribution: 3, requirement } => Some(requirement.text.as_str()),
            _ => None,
        })
        .collect();
    assert_eq!(on_d, vec!["d", "d<2", "d>=1"]);
    let dependencies_of_d_asked = asked
        .iter()
        .filter(|question| matches!(question, Question::Applies { requirement, .. } if requirement.text == "d"))
        .count();
    assert_eq!(dependencies_of_d_asked, 2);
}
