//! What the diagnostics of a finished audit are.
//!
//! An audit is a sequence of steps, each taken with the answer to a
//! question. Here the answers come from an oracle, a function from questions
//! to yes or no, and the audit is run until it ends. The theorem says that
//! the diagnostics it ends with are those of each name in turn, where the
//! diagnostics of a name are stated outright, with no steps.
use crate::diagnostics::commence;
use crate::diagnostics::concerning;
use crate::diagnostics::involving;
use crate::diagnostics::paths_at;
use crate::diagnostics::DiagnosticView;
use crate::diagnostics::Examined;
use crate::diagnostics::Finding;
use crate::diagnostics::Halted;
use crate::diagnostics::Survey;
use crate::distribution::DependencyView;
use crate::distribution::DistView;
use crate::index::lemma_positions_within;
use crate::installed_packages::name_labels;
use crate::installed_packages::named;
use crate::installed_packages::InstalledPackages;
use crate::query::QuestionView;
use vstd::prelude::*;

verus! {

/// Where an audit ends when every question is answered by `oracle`, if it
/// ends within `fuel` steps.
pub open spec fn run(finding: Finding, oracle: spec_fn(QuestionView) -> bool, fuel: nat) -> Option<
    Seq<DiagnosticView>,
>
    decreases fuel,
{
    match finding {
        Finding::Done(diagnostics) => Some(diagnostics),
        Finding::Ask { halted } => if fuel == 0 {
            None
        } else {
            run(halted.next(oracle(halted.question())), oracle, (fuel - 1) as nat)
        },
    }
}

/// Where an audit stands after `steps` steps, every question answered by
/// `oracle`. An audit that has ended stays where it ended.
pub open spec fn after(finding: Finding, oracle: spec_fn(QuestionView) -> bool, steps: nat) -> Finding
    decreases steps,
{
    match finding {
        Finding::Done(_) => finding,
        Finding::Ask { halted } => if steps == 0 {
            finding
        } else {
            after(halted.next(oracle(halted.question())), oracle, (steps - 1) as nat)
        },
    }
}

/// One step more leads where the question the audit stands at, answered by
/// the oracle, leads.
pub proof fn lemma_after_next(finding: Finding, oracle: spec_fn(QuestionView) -> bool, steps: nat)
    ensures
        after(finding, oracle, steps) matches Finding::Ask { halted } ==> after(
            finding,
            oracle,
            steps + 1,
        ) == halted.next(oracle(halted.question())),
    decreases steps,
{
    if let Finding::Ask { halted } = finding {
        let next = halted.next(oracle(halted.question()));
        if steps == 0 {
            assert(after(next, oracle, 0) == next);
        } else {
            lemma_after_next(next, oracle, (steps - 1) as nat);
        }
    }
}

impl Survey {
    /// What is wrong with one dependency of `package`: nothing if its
    /// markers do not hold; else that it is missing, if nothing of its name
    /// is installed; else that it is incompatible, if exactly one
    /// distribution of its name is installed, in a version that its
    /// specifiers do not contain; else nothing.
    pub open spec fn dependency_report(
        self,
        oracle: spec_fn(QuestionView) -> bool,
        package: Seq<char>,
        wanted: DependencyView,
    ) -> Seq<DiagnosticView> {
        let found = named(self.slots, wanted.name);
        if !oracle(
            QuestionView::Applies { requirement: wanted.requirement(), extras: Seq::empty() },
        ) {
            Seq::empty()
        } else if found.len() == 0 {
            seq![DiagnosticView::MissingDependency { package, requirement: wanted }]
        } else if found.len() == 1 && wanted.version is Some && !oracle(
            QuestionView::Contains {
                specifiers: wanted.version.unwrap(),
                version: self.slots[found[0] as int].unwrap().version,
            },
        ) {
            seq![
                DiagnosticView::IncompatibleDependency {
                    package,
                    version: self.slots[found[0] as int].unwrap().version,
                    requirement: wanted,
                },
            ]
        } else {
            Seq::empty()
        }
    }

    /// What is wrong with the dependencies of the distribution in `slot`,
    /// from dependency number `from` on, in the order declared.
    pub open spec fn dependency_reports(
        self,
        oracle: spec_fn(QuestionView) -> bool,
        package: Seq<char>,
        slot: usize,
        from: int,
    ) -> Seq<DiagnosticView>
        decreases self.dependencies(slot).len() - from,
    {
        if from < 0 || from >= self.dependencies(slot).len() {
            Seq::empty()
        } else {
            self.dependency_report(oracle, package, self.dependencies(slot)[from])
                + self.dependency_reports(oracle, package, slot, from + 1)
        }
    }

    /// That the distribution in `slot` does not support the environment's
    /// Python, if it states which versions it supports and they do not
    /// contain it.
    pub open spec fn python_report(
        self,
        oracle: spec_fn(QuestionView) -> bool,
        package: Seq<char>,
        slot: usize,
    ) -> Seq<DiagnosticView> {
        match self.slots[slot as int].unwrap().metadata.unwrap().requires_python {
            Some(requires_python) => if oracle(
                QuestionView::Contains {
                    specifiers: requires_python,
                    version: self.python_full_version,
                },
            ) {
                Seq::empty()
            } else {
                seq![
                    DiagnosticView::IncompatiblePythonVersion {
                        package,
                        version: self.interpreter_version,
                        requires_python,
                    },
                ]
            },
            None => Seq::empty(),
        }
    }

    /// What is wrong with one package. Nothing, if nothing of its name is
    /// installed. That it is a duplicate, and nothing else, if more than one
    /// distribution is. That its metadata cannot be read, and nothing else,
    /// if that is so. Else whether it supports the environment's Python, and
    /// then what is wrong with each of its dependencies.
    pub open spec fn package_reports(
        self,
        oracle: spec_fn(QuestionView) -> bool,
        package: Seq<char>,
    ) -> Seq<DiagnosticView> {
        let found = named(self.slots, package);
        if found.len() == 0 {
            Seq::empty()
        } else if found.len() > 1 {
            seq![DiagnosticView::DuplicatePackage { package, paths: paths_at(self.slots, found) }]
        } else {
            let dist = self.slots[found[0] as int].unwrap();
            if dist.metadata is None {
                seq![DiagnosticView::MetadataUnavailable { package, path: dist.path }]
            } else {
                self.python_report(oracle, package, found[0]) + self.dependency_reports(
                    oracle,
                    package,
                    found[0],
                    0,
                )
            }
        }
    }

    /// What is wrong with the packages from name number `from` on, in the
    /// order of the names.
    pub open spec fn reports_from(self, oracle: spec_fn(QuestionView) -> bool, from: int) -> Seq<
        DiagnosticView,
    >
        decreases self.names.len() - from,
    {
        if from < 0 || from >= self.names.len() {
            Seq::empty()
        } else {
            self.package_reports(oracle, self.names[from]) + self.reports_from(oracle, from + 1)
        }
    }
}

impl Halted {
    /// What holds of an audit between two steps when every answer so far
    /// came from `oracle`: its question is sound, and a question about an
    /// installed version is asked only of a dependency that applies and of
    /// whose name exactly that one distribution is installed.
    pub open spec fn faithful(self, oracle: spec_fn(QuestionView) -> bool) -> bool {
        let survey = self.survey;
        &&& survey.slots.len() <= usize::MAX
        &&& self.sound()
        &&& match self.examined {
            Examined::Version { slot, dependency, candidate } => {
                let wanted = survey.dependencies(slot)[dependency];
                &&& oracle(
                    QuestionView::Applies {
                        requirement: wanted.requirement(),
                        extras: Seq::empty(),
                    },
                )
                &&& named(survey.slots, wanted.name) == seq![candidate]
            },
            _ => true,
        }
    }

    /// The diagnostics still to come.
    pub open spec fn pending(self, oracle: spec_fn(QuestionView) -> bool) -> Seq<DiagnosticView> {
        let survey = self.survey;
        let package = survey.names[survey.position];
        let later = survey.reports_from(oracle, survey.position + 1);
        match self.examined {
            Examined::Python { slot } => survey.python_report(oracle, package, slot)
                + survey.dependency_reports(oracle, package, slot, 0) + later,
            Examined::Marker { slot, dependency } => survey.dependency_reports(
                oracle,
                package,
                slot,
                dependency,
            ) + later,
            Examined::Version { slot, dependency, candidate } => survey.dependency_report(
                oracle,
                package,
                survey.dependencies(slot)[dependency],
            ) + survey.dependency_reports(oracle, package, slot, dependency + 1) + later,
        }
    }
}

/// The diagnostics an audit is bound for: those it has ended with, or those
/// found so far followed by those still to come.
pub open spec fn bound_for(finding: Finding, oracle: spec_fn(QuestionView) -> bool) -> Seq<
    DiagnosticView,
> {
    match finding {
        Finding::Ask { halted } => halted.survey.diagnostics + halted.pending(oracle),
        Finding::Done(diagnostics) => diagnostics,
    }
}

/// An audit that goes on does so faithfully.
pub open spec fn goes_on_faithfully(finding: Finding, oracle: spec_fn(QuestionView) -> bool) -> bool {
    match finding {
        Finding::Ask { halted } => halted.faithful(oracle),
        Finding::Done(_) => true,
    }
}

/// The reports that do not depend on what was found so far do not change
/// when something is reported or a name is done with.
proof fn lemma_reports_ignore_progress(a: Survey, b: Survey, oracle: spec_fn(QuestionView) -> bool)
    requires
        a.slots == b.slots,
        a.interpreter_version == b.interpreter_version,
        a.python_full_version == b.python_full_version,
        a.names == b.names,
    ensures
        forall|from: int| #[trigger] a.reports_from(oracle, from) == b.reports_from(oracle, from),
        forall|package: Seq<char>, slot: usize, from: int| #[trigger]
            a.dependency_reports(oracle, package, slot, from) == b.dependency_reports(
                oracle,
                package,
                slot,
                from,
            ),
        forall|package: Seq<char>, slot: usize| #[trigger]
            a.python_report(oracle, package, slot) == b.python_report(oracle, package, slot),
        forall|package: Seq<char>, wanted: DependencyView| #[trigger]
            a.dependency_report(oracle, package, wanted) == b.dependency_report(
                oracle,
                package,
                wanted,
            ),
{
    assert forall|package: Seq<char>, slot: usize, from: int| #[trigger]
        a.dependency_reports(oracle, package, slot, from) == b.dependency_reports(
            oracle,
            package,
            slot,
            from,
        ) by {
        lemma_dependency_reports_same(a, b, oracle, package, slot, from);
    }
    assert forall|from: int| #[trigger]
        a.reports_from(oracle, from) == b.reports_from(oracle, from) by {
        lemma_reports_from_same(a, b, oracle, from);
    }
}

/// The reports of a distribution's dependencies depend on the slots alone.
proof fn lemma_dependency_reports_same(
    a: Survey,
    b: Survey,
    oracle: spec_fn(QuestionView) -> bool,
    package: Seq<char>,
    slot: usize,
    from: int,
)
    requires
        a.slots == b.slots,
    ensures
        a.dependency_reports(oracle, package, slot, from) == b.dependency_reports(
            oracle,
            package,
            slot,
            from,
        ),
    decreases a.dependencies(slot).len() - from,
{
    if 0 <= from < a.dependencies(slot).len() {
        lemma_dependency_reports_same(a, b, oracle, package, slot, from + 1);
    }
}

/// The reports of the names depend only on the slots, the versions and the
/// names themselves.
proof fn lemma_reports_from_same(
    a: Survey,
    b: Survey,
    oracle: spec_fn(QuestionView) -> bool,
    from: int,
)
    requires
        a.slots == b.slots,
        a.interpreter_version == b.interpreter_version,
        a.python_full_version == b.python_full_version,
        a.names == b.names,
    ensures
        a.reports_from(oracle, from) == b.reports_from(oracle, from),
    decreases a.names.len() - from,
{
    if 0 <= from < a.names.len() {
        lemma_reports_from_same(a, b, oracle, from + 1);
        let found = named(a.slots, a.names[from]);
        if found.len() == 1 {
            lemma_dependency_reports_same(a, b, oracle, a.names[from], found[0], 0);
        }
    }
}

/// Auditing the names from the current one on is bound for what was found
/// so far followed by the reports of those names.
proof fn lemma_open_bound(survey: Survey, oracle: spec_fn(QuestionView) -> bool)
    requires
        survey.slots.len() <= usize::MAX,
        0 <= survey.position,
    ensures
        bound_for(survey.open(), oracle) == survey.diagnostics + survey.reports_from(
            oracle,
            survey.position,
        ),
        goes_on_faithfully(survey.open(), oracle),
    decreases survey.names.len() - survey.position, 1int,
{
    let later = survey.reports_from(oracle, survey.position + 1);
    if survey.position >= survey.names.len() {
        assert(survey.diagnostics + Seq::<DiagnosticView>::empty() =~= survey.diagnostics);
    } else {
        let package = survey.names[survey.position];
        let found = named(survey.slots, package);
        lemma_positions_within(name_labels(survey.slots), package);
        if found.len() == 0 {
            let after = survey.advance();
            lemma_open_bound(after, oracle);
            lemma_reports_ignore_progress(survey, after, oracle);
            assert(Seq::<DiagnosticView>::empty() + later =~= later);
        } else if found.len() > 1 {
            let duplicate = DiagnosticView::DuplicatePackage {
                package,
                paths: paths_at(survey.slots, found),
            };
            let after = survey.report(duplicate).advance();
            lemma_open_bound(after, oracle);
            lemma_reports_ignore_progress(survey, after, oracle);
            assert(survey.diagnostics.push(duplicate) + later =~= survey.diagnostics + (
            seq![duplicate] + later));
        } else {
            let slot = found[0];
            let dist = survey.slots[slot as int].unwrap();
            assert(found =~= seq![slot]);
            match dist.metadata {
                None => {
                    let unreadable = DiagnosticView::MetadataUnavailable {
                        package,
                        path: dist.path,
                    };
                    let after = survey.report(unreadable).advance();
                    lemma_open_bound(after, oracle);
                    lemma_reports_ignore_progress(survey, after, oracle);
                    assert(survey.diagnostics.push(unreadable) + later =~= survey.diagnostics + (
                    seq![unreadable] + later));
                },
                Some(metadata) => {
                    let python = survey.python_report(oracle, package, slot);
                    let rest = survey.dependency_reports(oracle, package, slot, 0);
                    if metadata.requires_python is Some {
                        assert(survey.diagnostics + (python + rest + later) =~= survey.diagnostics
                            + ((python + rest) + later));
                    } else {
                        lemma_depend_bound(survey, oracle, slot, 0);
                        assert(python =~= Seq::<DiagnosticView>::empty());
                        assert(survey.diagnostics + rest + later =~= survey.diagnostics + ((python
                            + rest) + later));
                    }
                },
            }
        }
    }
}

/// Going on to a dependency is bound for what was found so far followed by
/// the reports of the dependencies from that one on and of the names after
/// the current one.
proof fn lemma_depend_bound(
    survey: Survey,
    oracle: spec_fn(QuestionView) -> bool,
    slot: usize,
    dependency: int,
)
    requires
        survey.slots.len() <= usize::MAX,
        0 <= survey.position < survey.names.len(),
        named(survey.slots, survey.names[survey.position]) == seq![slot],
        survey.slots[slot as int].unwrap().metadata is Some,
        0 <= dependency,
    ensures
        bound_for(survey.depend(slot, dependency), oracle) == survey.diagnostics
            + survey.dependency_reports(
            oracle,
            survey.names[survey.position],
            slot,
            dependency,
        ) + survey.reports_from(oracle, survey.position + 1),
        goes_on_faithfully(survey.depend(slot, dependency), oracle),
    decreases survey.names.len() - survey.position, 0int,
{
    let package = survey.names[survey.position];
    let later = survey.reports_from(oracle, survey.position + 1);
    let rest = survey.dependency_reports(oracle, package, slot, dependency);
    lemma_positions_within(name_labels(survey.slots), package);
    assert(named(survey.slots, package)[0] == slot);
    if dependency < survey.dependencies(slot).len() {
        assert(survey.diagnostics + rest + later =~= survey.diagnostics + (rest + later));
    } else {
        let after = survey.advance();
        lemma_open_bound(after, oracle);
        lemma_reports_ignore_progress(survey, after, oracle);
        assert(survey.diagnostics + rest + later =~= survey.diagnostics + later);
    }
}

/// A step of a faithful audit, taken with the oracle's answer, does not
/// change what the audit is bound for, and the audit goes on faithfully.
pub proof fn lemma_step_bound(halted: Halted, oracle: spec_fn(QuestionView) -> bool)
    requires
        halted.faithful(oracle),
    ensures
        bound_for(halted.next(oracle(halted.question())), oracle) == bound_for(
            Finding::Ask { halted },
            oracle,
        ),
        goes_on_faithfully(halted.next(oracle(halted.question())), oracle),
{
    let survey = halted.survey;
    let package = survey.names[survey.position];
    let later = survey.reports_from(oracle, survey.position + 1);
    let yes = oracle(halted.question());
    let found_so_far = survey.diagnostics;
    match halted.examined {
        Examined::Python { slot } => {
            let python = survey.python_report(oracle, package, slot);
            let rest = survey.dependency_reports(oracle, package, slot, 0);
            let after = if yes {
                survey
            } else {
                survey.report(python[0])
            };
            lemma_depend_bound(after, oracle, slot, 0);
            lemma_reports_ignore_progress(survey, after, oracle);
            assert(after.diagnostics =~= found_so_far + python);
            assert(after.diagnostics + rest + later =~= found_so_far + (python + rest + later));
        },
        Examined::Marker { slot, dependency } => {
            let wanted = survey.dependencies(slot)[dependency];
            let found = named(survey.slots, wanted.name);
            let one = survey.dependency_report(oracle, package, wanted);
            let rest = survey.dependency_reports(oracle, package, slot, dependency + 1);
            lemma_positions_within(name_labels(survey.slots), wanted.name);
            if yes && found.len() == 1 && wanted.version is Some {
                assert(found =~= seq![found[0]]);
                assert(found_so_far + (one + rest + later) =~= found_so_far + ((one + rest)
                    + later));
            } else {
                let after = if yes && found.len() == 0 {
                    survey.report(one[0])
                } else {
                    survey
                };
                lemma_depend_bound(after, oracle, slot, dependency + 1);
                lemma_reports_ignore_progress(survey, after, oracle);
                assert(after.diagnostics =~= found_so_far + one);
                assert(after.diagnostics + rest + later =~= found_so_far + ((one + rest) + later));
            }
        },
        Examined::Version { slot, dependency, candidate } => {
            let wanted = survey.dependencies(slot)[dependency];
            let one = survey.dependency_report(oracle, package, wanted);
            let rest = survey.dependency_reports(oracle, package, slot, dependency + 1);
            assert(named(survey.slots, wanted.name)[0] == candidate);
            let after = if yes {
                survey
            } else {
                survey.report(one[0])
            };
            lemma_depend_bound(after, oracle, slot, dependency + 1);
            lemma_reports_ignore_progress(survey, after, oracle);
            assert(after.diagnostics =~= found_so_far + one);
            assert(after.diagnostics + rest + later =~= found_so_far + (one + rest + later));
        },
    }
}

/// A faithful audit ends with what it is bound for.
proof fn lemma_run_bound(finding: Finding, oracle: spec_fn(QuestionView) -> bool, fuel: nat)
    requires
        goes_on_faithfully(finding, oracle),
    ensures
        run(finding, oracle, fuel) matches Some(diagnostics) ==> diagnostics == bound_for(
            finding,
            oracle,
        ),
    decreases fuel,
{
    match finding {
        Finding::Done(_) => {},
        Finding::Ask { halted } => {
            if fuel > 0 {
                lemma_step_bound(halted, oracle);
                lemma_run_bound(halted.next(oracle(halted.question())), oracle, (fuel - 1) as nat);
            }
        },
    }
}

/// The diagnostics of an audit. Run an audit of `slots` from its beginning,
/// with the names in the order `names` and every question answered by
/// `oracle`, whatever that is. If it ends, its diagnostics are the reports
/// of each name in turn.
pub proof fn theorem_diagnostics(
    slots: Seq<Option<DistView>>,
    interpreter_version: Seq<char>,
    python_full_version: Seq<char>,
    names: Seq<Seq<char>>,
    oracle: spec_fn(QuestionView) -> bool,
    fuel: nat,
)
    requires
        slots.len() <= usize::MAX,
    ensures
        run(
            commence(slots, interpreter_version, python_full_version, names),
            oracle,
            fuel,
        ) matches Some(diagnostics) ==> diagnostics == (Survey {
            slots,
            interpreter_version,
            python_full_version,
            names,
            position: 0,
            diagnostics: Seq::empty(),
        }).reports_from(oracle, 0),
{
    let survey = Survey {
        slots,
        interpreter_version,
        python_full_version,
        names,
        position: 0,
        diagnostics: Seq::empty(),
    };
    lemma_open_bound(survey, oracle);
    lemma_run_bound(survey.open(), oracle, fuel);
    assert(survey.diagnostics + survey.reports_from(oracle, 0) =~= survey.reports_from(oracle, 0));
}

/// No report of the dependencies of one package has to do with another
/// package that is installed more than once.
proof fn lemma_dependencies_silent(
    survey: Survey,
    oracle: spec_fn(QuestionView) -> bool,
    package: Seq<char>,
    other: Seq<char>,
    slot: usize,
    from: int,
)
    requires
        named(survey.slots, package).len() > 1,
        other != package,
    ensures
        forall|i: int|
            0 <= i < survey.dependency_reports(oracle, other, slot, from).len()
                ==> !(#[trigger] survey.dependency_reports(oracle, other, slot, from)[i]).concerns(
                package,
            ),
    decreases survey.dependencies(slot).len() - from,
{
    if 0 <= from < survey.dependencies(slot).len() {
        lemma_dependencies_silent(survey, oracle, package, other, slot, from + 1);
        let wanted = survey.dependencies(slot)[from];
        let one = survey.dependency_report(oracle, other, wanted);
        let rest = survey.dependency_reports(oracle, other, slot, from + 1);
        let all = survey.dependency_reports(oracle, other, slot, from);
        assert(all == one + rest);
        assert forall|i: int| 0 <= i < all.len() implies !(#[trigger] all[i]).concerns(
            package,
        ) by {
            if i < one.len() {
                assert(all[i] == one[0]);
                if named(survey.slots, wanted.name).len() <= 1 {
                    assert(wanted.name != package);
                }
            } else {
                assert(all[i] == rest[i - one.len()]);
            }
        }
    }
}

/// No report of one package passes a filter that lets through only what has
/// to do with another package, one that is installed more than once.
proof fn lemma_others_silent(
    survey: Survey,
    oracle: spec_fn(QuestionView) -> bool,
    package: Seq<char>,
    other: Seq<char>,
    kept: spec_fn(DiagnosticView) -> bool,
)
    requires
        named(survey.slots, package).len() > 1,
        other != package,
        forall|diagnostic: DiagnosticView| #[trigger]
            kept(diagnostic) ==> diagnostic.concerns(package),
    ensures
        survey.package_reports(oracle, other).filter(kept) == Seq::<DiagnosticView>::empty(),
{
    let found = named(survey.slots, other);
    if found.len() == 1 {
        lemma_dependencies_silent(survey, oracle, package, other, found[0], 0);
    }
    let reports = survey.package_reports(oracle, other);
    assert forall|i: int| 0 <= i < reports.len() implies !kept(#[trigger] reports[i]) by {
        assert(!reports[i].concerns(package));
    }
    reports.lemma_all_neg_filter_empty(kept);
}

/// Filtering a single diagnostic that passes the filter keeps it.
proof fn lemma_filter_keeps_one(diagnostic: DiagnosticView, kept: spec_fn(DiagnosticView) -> bool)
    requires
        kept(diagnostic),
    ensures
        seq![diagnostic].filter(kept) == seq![diagnostic],
{
    let one = seq![diagnostic];
    reveal_with_fuel(Seq::filter, 2);
    assert(one.drop_last().len() == 0);
    assert(one.filter(kept) =~= one);
}

/// The report that a package is installed more than once, with the paths of
/// all its distributions in slot order.
pub open spec fn duplicate_report(slots: Seq<Option<DistView>>, package: Seq<char>) -> DiagnosticView {
    DiagnosticView::DuplicatePackage {
        package,
        paths: paths_at(slots, named(slots, package)),
    }
}

/// Among the reports of the names from `from` on, those that have to do
/// with a package installed more than once are its one duplicate report, if
/// its name is yet to come, and none otherwise.
proof fn lemma_duplicate_from(
    survey: Survey,
    oracle: spec_fn(QuestionView) -> bool,
    at: int,
    from: int,
    kept: spec_fn(DiagnosticView) -> bool,
)
    requires
        survey.names.no_duplicates(),
        0 <= at < survey.names.len(),
        named(survey.slots, survey.names[at]).len() > 1,
        0 <= from,
        kept(duplicate_report(survey.slots, survey.names[at])),
        forall|diagnostic: DiagnosticView| #[trigger]
            kept(diagnostic) ==> diagnostic.concerns(survey.names[at]),
    ensures
        survey.reports_from(oracle, from).filter(kept) == if from <= at {
            seq![duplicate_report(survey.slots, survey.names[at])]
        } else {
            Seq::<DiagnosticView>::empty()
        },
    decreases survey.names.len() - from,
{
    let package = survey.names[at];
    if from < survey.names.len() {
        let here = survey.package_reports(oracle, survey.names[from]);
        let later = survey.reports_from(oracle, from + 1);
        lemma_duplicate_from(survey, oracle, at, from + 1, kept);
        Seq::filter_distributes_over_add(here, later, kept);
        if from == at {
            lemma_filter_keeps_one(here[0], kept);
            assert(here =~= seq![here[0]]);
            assert(here + Seq::<DiagnosticView>::empty() =~= here);
        } else {
            lemma_others_silent(survey, oracle, package, survey.names[from], kept);
            assert(Seq::<DiagnosticView>::empty() + later.filter(kept) =~= later.filter(kept));
        }
    }
}

/// A package installed more than once gets exactly one diagnostic, which
/// reports the duplicate with the paths of all its distributions in slot
/// order. Nothing else among the diagnostics of the audit has to do with it:
/// nothing is said of its metadata, its Python versions or its
/// dependencies, and no other package is said to miss it or to exclude its
/// version.
pub proof fn law_duplicate_reported_once(
    survey: Survey,
    oracle: spec_fn(QuestionView) -> bool,
    package: Seq<char>,
)
    requires
        survey.names.no_duplicates(),
        survey.names.contains(package),
        named(survey.slots, package).len() > 1,
    ensures
        concerning(survey.reports_from(oracle, 0), package) == seq![
            duplicate_report(survey.slots, package),
        ],
        involving(survey.reports_from(oracle, 0), package) == seq![
            duplicate_report(survey.slots, package),
        ],
        duplicate_report(survey.slots, package)->paths.len() == named(survey.slots, package).len(),
{
    let at = choose|at: int| 0 <= at < survey.names.len() && survey.names[at] == package;
    lemma_duplicate_from(
        survey,
        oracle,
        at,
        0,
        |diagnostic: DiagnosticView| diagnostic.concerns(package),
    );
    lemma_duplicate_from(
        survey,
        oracle,
        at,
        0,
        |diagnostic: DiagnosticView| diagnostic.involves(package),
    );
}

/// The same of a well-formed index, whose names are audited in any order
/// that holds each recorded name once: a package of which more than one
/// distribution is installed gets its one duplicate report, and nothing else
/// among the diagnostics has to do with it.
pub proof fn law_duplicate_in_index(
    packages: &InstalledPackages,
    python_full_version: Seq<char>,
    names: Seq<Seq<char>>,
    oracle: spec_fn(QuestionView) -> bool,
    package: Seq<char>,
)
    requires
        packages.wf(),
        names.no_duplicates(),
        names.to_set() == packages.recorded_names(),
        named(packages@, package).len() > 1,
    ensures
        concerning(
            audit_of(packages, python_full_version, names).reports_from(oracle, 0),
            package,
        ) == seq![duplicate_report(packages@, package)],
        involving(
            audit_of(packages, python_full_version, names).reports_from(oracle, 0),
            package,
        ) == seq![duplicate_report(packages@, package)],
{
    packages.lemma_installed_recorded(package);
    assert(names.to_set().contains(package));
    law_duplicate_reported_once(audit_of(packages, python_full_version, names), oracle, package);
}

/// The survey with which an audit of an index begins, when its names are
/// audited in the order `names`.
pub open spec fn audit_of(
    packages: &InstalledPackages,
    python_full_version: Seq<char>,
    names: Seq<Seq<char>>,
) -> Survey {
    Survey {
        slots: packages@,
        interpreter_version: packages.spec_interpreter().python_version@,
        python_full_version,
        names,
        position: 0,
        diagnostics: Seq::empty(),
    }
}

/// The largest number of dependencies that any installed distribution
/// declares.
pub open spec fn most_dependencies(slots: Seq<Option<DistView>>) -> nat
    decreases slots.len(),
{
    if slots.len() == 0 {
        0
    } else {
        let before = most_dependencies(slots.drop_last());
        let here = match slots.last() {
            Some(dist) => match dist.metadata {
                Some(metadata) => metadata.requires_dist.len(),
                None => 0,
            },
            None => 0,
        };
        if here > before {
            here
        } else {
            before
        }
    }
}

/// No distribution declares more dependencies than the most that any does.
proof fn lemma_most_dependencies(slots: Seq<Option<DistView>>, slot: int)
    requires
        0 <= slot < slots.len(),
        slots[slot] is Some,
        slots[slot].unwrap().metadata is Some,
    ensures
        slots[slot].unwrap().metadata.unwrap().requires_dist.len() <= most_dependencies(slots),
    decreases slots.len(),
{
    if slot < slots.len() - 1 {
        lemma_most_dependencies(slots.drop_last(), slot);
    }
}

/// The steps one name can take at most, and one more.
pub open spec fn width(slots: Seq<Option<DistView>>) -> int {
    2 * (most_dependencies(slots) as int) + 3
}

/// A bound on the steps an audit has left.
pub open spec fn steps_left(finding: Finding) -> int {
    match finding {
        Finding::Done(_) => 0,
        Finding::Ask { halted } => {
            let survey = halted.survey;
            (survey.names.len() - survey.position) * width(survey.slots) + match halted.examined {
                Examined::Python { slot } => 2 * (survey.dependencies(slot).len() as int) + 2,
                Examined::Marker { slot, dependency } => 2 * (survey.dependencies(slot).len()
                    - dependency),
                Examined::Version { slot, dependency, candidate } => 2 * (survey.dependencies(
                    slot,
                ).len() - dependency) - 1,
            }
        },
    }
}

/// Multiplying by a factor that is not negative keeps the order, and
/// distributes over a step of one.
proof fn lemma_scale(a: int, b: int, w: int)
    requires
        a <= b,
        0 <= w,
    ensures
        a * w <= b * w,
        (a - 1) * w == a * w - w,
        (a + 1) * w == a * w + w,
{
    assert(a * w <= b * w) by (nonlinear_arith)
        requires
            a <= b,
            0 <= w,
    ;
    assert((a - 1) * w == a * w - w) by (nonlinear_arith);
    assert((a + 1) * w == a * w + w) by (nonlinear_arith);
}

/// Auditing the names from the current one on leaves fewer steps than a
/// full name more than the names left would take.
proof fn lemma_open_steps(survey: Survey)
    requires
        survey.slots.len() <= usize::MAX,
        0 <= survey.position <= survey.names.len(),
    ensures
        0 <= steps_left(survey.open()) < (survey.names.len() - survey.position + 1) * width(
            survey.slots,
        ),
    decreases survey.names.len() - survey.position, 1int,
{
    let left = survey.names.len() - survey.position;
    let wide = width(survey.slots);
    lemma_scale(left, left, wide);
    lemma_scale(0, left, wide);
    if survey.position < survey.names.len() {
        let package = survey.names[survey.position];
        let found = named(survey.slots, package);
        lemma_positions_within(name_labels(survey.slots), package);
        if found.len() == 1 && survey.slots[found[0] as int].unwrap().metadata is Some {
            let slot = found[0];
            assert(found =~= seq![slot]);
            lemma_most_dependencies(survey.slots, slot as int);
            if survey.slots[slot as int].unwrap().metadata.unwrap().requires_python is None {
                lemma_depend_steps(survey, slot, 0);
            }
        } else {
            let after = if found.len() > 1 {
                survey.report(
                    DiagnosticView::DuplicatePackage {
                        package,
                        paths: paths_at(survey.slots, found),
                    },
                ).advance()
            } else if found.len() == 1 {
                survey.report(
                    DiagnosticView::MetadataUnavailable {
                        package,
                        path: survey.slots[found[0] as int].unwrap().path,
                    },
                ).advance()
            } else {
                survey.advance()
            };
            lemma_open_steps(after);
            lemma_scale(left - 1, left, wide);
        }
    }
}

/// Going on to a dependency leaves no more steps than the dependencies from
/// that one on and the names after the current one would take.
proof fn lemma_depend_steps(survey: Survey, slot: usize, dependency: int)
    requires
        survey.slots.len() <= usize::MAX,
        0 <= survey.position < survey.names.len(),
        named(survey.slots, survey.names[survey.position]) == seq![slot],
        survey.slots[slot as int].unwrap().metadata is Some,
        0 <= dependency <= survey.dependencies(slot).len(),
    ensures
        0 <= steps_left(survey.depend(slot, dependency)) <= (survey.names.len() - survey.position)
            * width(survey.slots) + 2 * (survey.dependencies(slot).len() - dependency),
    decreases survey.names.len() - survey.position, 0int,
{
    let left = survey.names.len() - survey.position;
    let wide = width(survey.slots);
    lemma_scale(left, left, wide);
    lemma_scale(0, left, wide);
    if dependency >= survey.dependencies(slot).len() {
        lemma_open_steps(survey.advance());
    }
}

/// Every step of an audit leaves fewer steps, whatever the answer.
pub proof fn lemma_step_shortens(halted: Halted, yes: bool)
    requires
        halted.survey.slots.len() <= usize::MAX,
        halted.sound(),
    ensures
        0 <= steps_left(halted.next(yes)) < steps_left(Finding::Ask { halted }),
{
    let survey = halted.survey;
    let package = survey.names[survey.position];
    let left = survey.names.len() - survey.position;
    lemma_scale(left, left, width(survey.slots));
    match halted.examined {
        Examined::Python { slot } => {
            let after = if yes {
                survey
            } else {
                survey.report(
                    DiagnosticView::IncompatiblePythonVersion {
                        package,
                        version: survey.interpreter_version,
                        requires_python: survey.slots[slot as int].unwrap().metadata.unwrap().requires_python.unwrap(),
                    },
                )
            };
            lemma_depend_steps(after, slot, 0);
        },
        Examined::Marker { slot, dependency } => {
            let wanted = survey.dependencies(slot)[dependency];
            let found = named(survey.slots, wanted.name);
            if yes && found.len() == 1 && wanted.version is Some {
                lemma_scale(0, left, width(survey.slots));
            } else {
                let after = if yes && found.len() == 0 {
                    survey.report(
                        DiagnosticView::MissingDependency { package, requirement: wanted },
                    )
                } else {
                    survey
                };
                lemma_depend_steps(after, slot, dependency + 1);
            }
        },
        Examined::Version { slot, dependency, candidate } => {
            let wanted = survey.dependencies(slot)[dependency];
            let after = if yes {
                survey
            } else {
                survey.report(
                    DiagnosticView::IncompatibleDependency {
                        package,
                        version: survey.slots[candidate as int].unwrap().version,
                        requirement: wanted,
                    },
                )
            };
            lemma_depend_steps(after, slot, dependency + 1);
        },
    }
}

/// A faithful audit ends within the steps it has left.
proof fn lemma_run_ends(finding: Finding, oracle: spec_fn(QuestionView) -> bool, fuel: nat)
    requires
        goes_on_faithfully(finding, oracle),
        steps_left(finding) <= fuel,
    ensures
        run(finding, oracle, fuel) is Some,
    decreases fuel,
{
    match finding {
        Finding::Done(_) => {},
        Finding::Ask { halted } => {
            let yes = oracle(halted.question());
            lemma_step_shortens(halted, yes);
            lemma_step_bound(halted, oracle);
            lemma_run_ends(halted.next(yes), oracle, (fuel - 1) as nat);
        },
    }
}

/// Every audit ends. Whatever the answers, an audit of `names` names is over
/// within a number of steps that depends only on how many names there are
/// and on the most dependencies that any installed distribution declares.
pub proof fn theorem_audit_ends(
    slots: Seq<Option<DistView>>,
    interpreter_version: Seq<char>,
    python_full_version: Seq<char>,
    names: Seq<Seq<char>>,
    oracle: spec_fn(QuestionView) -> bool,
)
    requires
        slots.len() <= usize::MAX,
    ensures
        run(
            commence(slots, interpreter_version, python_full_version, names),
            oracle,
            ((names.len() + 1) * width(slots)) as nat,
        ) is Some,
{
    let survey = Survey {
        slots,
        interpreter_version,
        python_full_version,
        names,
        position: 0,
        diagnostics: Seq::empty(),
    };
    lemma_open_steps(survey);
    lemma_open_bound(survey, oracle);
    lemma_run_ends(survey.open(), oracle, ((names.len() + 1) * width(slots)) as nat);
}

} // verus!
