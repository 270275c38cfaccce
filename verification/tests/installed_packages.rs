use freshness::distribution::Dependency;
use freshness::distribution::InstalledDist;
use freshness::distribution::Interpreter;
use freshness::distribution::Metadata;
use freshness::scan::candidates;
use freshness::scan::is_candidate;
use freshness::scan::Entry;
use freshness::scan::is_dangling;
use freshness::installed_packages::InstalledPackages;
use freshness::scan::Probed;
use freshness::scan::Recorded;
use freshness::scan::ScanError;

fn interpreter() -> Interpreter {
    Interpreter {
        sys_path: vec!["/env/lib/python3.12/site-packages".to_string()],
        python_version: "3.12.1".to_string(),
    }
}

fn dist(name: &str, version: &str) -> InstalledDist {
    InstalledDist {
        name: name.to_string(),
        version: version.to_string(),
        path: format!("/env/lib/python3.12/site-packages/{name}-{version}.dist-info"),
        url: None,
        metadata: Some(Metadata { requires_python: None, requires_dist: Vec::new() }),
    }
}

fn editable(name: &str, version: &str, url: &str) -> InstalledDist {
    InstalledDist { url: Some(url.to_string()), ..dist(name, version) }
}

fn unreadable(path: &str, file_name: Option<&str>) -> Probed {
    Probed::Unreadable { path: path.to_string(), file_name: file_name.map(str::to_string) }
}

fn build(dists: Vec<InstalledDist>) -> InstalledPackages {
    let probed = dists.into_iter().map(Probed::Distribution).collect();
    match InstalledPackages::from_interpreter(interpreter(), probed) {
        Ok(packages) => packages,
        Err(error) => panic!("unexpected scan error at {}", error.path),
    }
}

#[test]
fn environment_without_packages_has_nothing() {
    let packages = build(Vec::new());
    assert!(!packages.any());
    assert!(packages.iter().is_empty());
    assert!(packages.names().is_empty());
    assert!(packages.get_packages("anything").is_empty());
    assert!(packages.get_urls("file:///src/anything").is_empty());
}

#[test]
fn environment_with_only_unrecognized_paths_has_nothing() {
    let built = InstalledPackages::from_interpreter(
        interpreter(),
        vec![Probed::Unrecognized, unreadable("/env/~ip", Some("~ip")), Probed::Unrecognized],
    );
    let packages = built.ok().unwrap();
    assert!(!packages.any());
    assert!(packages.iter().is_empty());
}

#[test]
fn index_keeps_the_interpreter() {
    let packages = build(vec![dist("idna", "3.6")]);
    assert_eq!(packages.interpreter(), &interpreter());
}

#[test]
fn distributions_are_enumerated_in_scan_order() {
    let packages = build(vec![dist("idna", "3.6"), dist("anyio", "4.0"), dist("sniffio", "1.3")]);
    assert!(packages.any());
    let names: Vec<&str> = packages.iter().into_iter().map(|d| d.name.as_str()).collect();
    assert_eq!(names, vec!["idna", "anyio", "sniffio"]);
}

#[test]
fn lookup_by_name_finds_the_distribution() {
    let packages = build(vec![dist("idna", "3.6"), dist("anyio", "4.0")]);
    let found = packages.get_packages("anyio");
    assert_eq!(found, vec![&dist("anyio", "4.0")]);
    assert_eq!(packages.named_slots("anyio"), vec![1]);
    assert_eq!(packages.get(1), Some(&dist("anyio", "4.0")));
    assert_eq!(packages.get(2), None);
}

#[test]
fn lookup_of_an_unknown_name_is_empty() {
    let packages = build(vec![dist("idna", "3.6")]);
    assert!(packages.get_packages("requests").is_empty());
    assert!(packages.named_slots("requests").is_empty());
}

#[test]
fn same_name_installed_twice_is_found_twice() {
    let packages = build(vec![dist("idna", "3.6"), dist("anyio", "4.0"), dist("idna", "2.10")]);
    let found = packages.get_packages("idna");
    assert_eq!(found, vec![&dist("idna", "3.6"), &dist("idna", "2.10")]);
    assert_eq!(packages.named_slots("idna"), vec![0, 2]);
}

#[test]
fn lookup_by_url_finds_only_url_installs() {
    let packages = build(vec![
        dist("idna", "3.6"),
        editable("project", "0.1.0", "file:///src/project"),
        editable("other", "1.0", "file:///src/other"),
    ]);
    let found = packages.get_urls("file:///src/project");
    assert_eq!(found, vec![&editable("project", "0.1.0", "file:///src/project")]);
    assert_eq!(packages.sourced_slots("file:///src/other"), vec![2]);
    assert!(packages.get_urls("file:///src/idna").is_empty());
    assert_eq!(packages.get_packages("project").len(), 1);
}

#[test]
fn names_lists_each_name_once() {
    let packages = build(vec![dist("idna", "3.6"), dist("anyio", "4.0"), dist("idna", "2.10")]);
    let mut names = packages.names();
    names.sort();
    assert_eq!(names, vec!["anyio".to_string(), "idna".to_string()]);
}

#[test]
fn removal_empties_the_slots_of_that_name_only() {
    let mut packages = build(vec![
        dist("idna", "3.6"),
        editable("anyio", "4.0", "file:///src/anyio"),
        dist("idna", "2.10"),
        dist("sniffio", "1.3"),
    ]);
    let removed = packages.remove_packages("idna");
    assert_eq!(removed, vec![dist("idna", "3.6"), dist("idna", "2.10")]);
    assert!(packages.get_packages("idna").is_empty());
    let left: Vec<&str> = packages.iter().into_iter().map(|d| d.name.as_str()).collect();
    assert_eq!(left, vec!["anyio", "sniffio"]);
    assert_eq!(packages.named_slots("anyio"), vec![1]);
    assert_eq!(packages.named_slots("sniffio"), vec![3]);
    assert_eq!(packages.sourced_slots("file:///src/anyio"), vec![1]);
    assert_eq!(packages.get(0), None);
    assert_eq!(packages.get(3), Some(&dist("sniffio", "1.3")));
    assert!(packages.any());
}

#[test]
fn removal_keeps_the_name_on_record() {
    let mut packages = build(vec![dist("idna", "3.6")]);
    assert_eq!(packages.remove_packages("idna").len(), 1);
    assert_eq!(packages.names(), vec!["idna".to_string()]);
    assert!(!packages.any());
    assert!(packages.iter().is_empty());
}

#[test]
fn removal_of_an_unknown_or_removed_name_takes_nothing() {
    let mut packages = build(vec![dist("idna", "3.6")]);
    assert!(packages.remove_packages("requests").is_empty());
    assert_eq!(packages.remove_packages("idna"), vec![dist("idna", "3.6")]);
    assert!(packages.remove_packages("idna").is_empty());
}

#[test]
fn slot_numbers_go_on_after_a_removal() {
    let mut packages = build(vec![dist("idna", "3.6")]);
    packages.remove_packages("idna");
    let outcome = packages.record(Probed::Distribution(dist("idna", "3.7")));
    assert_eq!(outcome, Ok(Recorded::Indexed(1)));
    assert_eq!(packages.get_packages("idna"), vec![&dist("idna", "3.7")]);
    assert_eq!(packages.named_slots("idna"), vec![1]);
}

#[test]
fn record_reports_what_became_of_each_probe() {
    let mut packages = InstalledPackages::new(interpreter());
    assert_eq!(packages.record(Probed::Unrecognized), Ok(Recorded::Skipped));
    assert_eq!(packages.record(Probed::Distribution(dist("idna", "3.6"))), Ok(Recorded::Indexed(0)));
    assert_eq!(packages.record(unreadable("/env/~dna", Some("~dna"))), Ok(Recorded::Dangling));
    assert_eq!(
        packages.record(unreadable("/env/broken.dist-info", Some("broken.dist-info"))),
        Err(ScanError { path: "/env/broken.dist-info".to_string() })
    );
    assert_eq!(packages.record(Probed::Distribution(dist("anyio", "4.0"))), Ok(Recorded::Indexed(1)));
    assert_eq!(packages.iter().len(), 2);
}

#[test]
fn scan_fails_at_the_first_unreadable_path() {
    let built = InstalledPackages::from_interpreter(
        interpreter(),
        vec![
            Probed::Distribution(dist("idna", "3.6")),
            unreadable("/env/~leftover", Some("~leftover")),
            unreadable("/env/first.dist-info", Some("first.dist-info")),
            unreadable("/env/second.dist-info", Some("second.dist-info")),
        ],
    );
    assert_eq!(built.err(), Some(ScanError { path: "/env/first.dist-info".to_string() }));
}

#[test]
fn unreadable_path_without_a_file_name_is_fatal() {
    let built = InstalledPackages::from_interpreter(interpreter(), vec![unreadable("/", None)]);
    assert_eq!(built.err(), Some(ScanError { path: "/".to_string() }));
}

#[test]
fn dangling_names_begin_with_a_tilde() {
    assert!(is_dangling(&Some("~ip".to_string())));
    assert!(is_dangling(&Some("~".to_string())));
    assert!(!is_dangling(&Some("pip~".to_string())));
    assert!(!is_dangling(&Some(String::new())));
    assert!(!is_dangling(&None));
}

#[test]
fn candidates_are_directories_and_egg_files() {
    assert!(is_candidate(true, &None));
    assert!(is_candidate(true, &Some("py".to_string())));
    assert!(is_candidate(false, &Some("egg-link".to_string())));
    assert!(is_candidate(false, &Some("egg-info".to_string())));
    assert!(!is_candidate(false, &Some("dist-info".to_string())));
    assert!(!is_candidate(false, &Some("egg".to_string())));
    assert!(!is_candidate(false, &None));
}

#[test]
fn dependency_reads_as_a_requirement_on_its_name() {
    let dependency = Dependency {
        name: "idna".to_string(),
        extras: vec!["speedups".to_string()],
        version: Some(">=2.8".to_string()),
        text: "idna[speedups]>=2.8".to_string(),
    };
    let requirement = dependency.requirement();
    assert_eq!(requirement.target, freshness::requirement::Target::Name("idna".to_string()));
    assert_eq!(requirement.extras, vec!["speedups".to_string()]);
    assert_eq!(requirement.text, "idna[speedups]>=2.8");
}

fn entry(path: &str, is_dir: bool, extension: Option<&str>) -> Entry {
    Entry { path: path.to_string(), is_dir, extension: extension.map(str::to_string) }
}

#[test]
fn candidate_paths_come_in_ascending_order() {
    let paths = candidates(&vec![
        entry("/sp/zipp-3.17.dist-info", true, Some("dist-info")),
        entry("/sp/README.txt", false, Some("txt")),
        entry("/sp/project.egg-link", false, Some("egg-link")),
        entry("/sp/anyio", true, None),
        entry("/sp/legacy.egg-info", false, Some("egg-info")),
        entry("/sp/anyio-4.0.dist-info", true, Some("dist-info")),
        entry("/sp/six.py", false, Some("py")),
    ]);
    assert_eq!(
        paths,
        vec![
            "/sp/anyio".to_string(),
            "/sp/anyio-4.0.dist-info".to_string(),
            "/sp/legacy.egg-info".to_string(),
            "/sp/project.egg-link".to_string(),
            "/sp/zipp-3.17.dist-info".to_string(),
        ]
    );
}

#[test]
fn candidate_paths_are_listed_once() {
    let paths = candidates(&vec![
        entry("/sp/b", true, None),
        entry("/sp/a", true, None),
        entry("/sp/b", true, None),
        entry("/sp/a", false, Some("egg-info")),
        entry("/sp/b", false, None),
    ]);
    assert_eq!(paths, vec!["/sp/a".to_string(), "/sp/b".to_string()]);
    let none: Vec<String> = Vec::new();
    assert_eq!(candidates(&Vec::new()), none);
    assert_eq!(candidates(&vec![entry("/sp/x.txt", false, Some("txt"))]), none);
}

#[test]
fn candidate_paths_are_ordered_by_code_point() {
    let paths = candidates(&vec![
        entry("/sp/\u{e9}clair", true, None),
        entry("/sp/zebra", true, None),
        entry("/sp/Zebra", true, None),
        entry("/sp/zebra-1", true, None),
        entry("/sp/~zebra", true, None),
    ]);
    assert_eq!(
        paths,
        vec![
            "/sp/Zebra".to_string(),
            "/sp/zebra".to_string(),
            "/sp/zebra-1".to_string(),
            "/sp/~zebra".to_string(),
            "/sp/\u{e9}clair".to_string(),
        ]
    );
}

#[test]
fn copy_of_an_index_is_independent_of_it() {
    let mut requests = dist("requests", "2.31");
    requests.metadata = Some(Metadata {
        requires_python: Some(">=3.7".to_string()),
        requires_dist: vec![Dependency {
            name: "idna".to_string(),
            extras: Vec::new(),
            version: Some(">=2.5".to_string()),
            text: "idna>=2.5".to_string(),
        }],
    });
    let mut packages = build(vec![requests.clone(), editable("idna", "3.6", "file:///src/idna")]);
    let copy = packages.clone();
    assert_eq!(packages.remove_packages("requests"), vec![requests.clone()]);
    assert!(packages.get_packages("requests").is_empty());
    assert_eq!(copy.get_packages("requests"), vec![&requests]);
    assert_eq!(copy.get_urls("file:///src/idna").len(), 1);
    assert_eq!(copy.iter().len(), 2);
    assert_eq!(copy.interpreter(), &interpreter());
    let mut names = copy.names();
    names.sort();
    assert_eq!(names, vec!["idna".to_string(), "requests".to_string()]);
}
