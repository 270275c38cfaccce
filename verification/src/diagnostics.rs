//! Auditing what is installed.
//!
//! The audit goes through the package names of an index one by one and
//! reports what is wrong with each: more than one distribution of a name,
//! metadata that cannot be read, a distribution that does not support the
//! interpreter, a dependency that is not installed or is installed in a
//! version its specifiers exclude. It reports everything it finds and never
//! stops early.
//!
//! Three things are asked of the caller on the way: whether the Python
//! versions a distribution supports contain the interpreter's, whether the
//! markers of a dependency hold, and whether the version specifiers of a
//! dependency contain the version installed. The audit stops at each such
//! question and is resumed with the answer: see
//! [`InstalledPackages::diagnostics`] and [`Audit::resume`]. Where the
//! answers come from a function that answers the same question in the same
//! way each time, [`InstalledPackages::diagnostics_with`] takes the audit to
//! its end.
use crate::distribution::Dependency;
use crate::distribution::DependencyView;
use crate::distribution::DistView;
use crate::installed_packages::named;
use crate::installed_packages::InstalledPackages;
use crate::diagnostics_proofs::after;
use crate::diagnostics_proofs::audit_of;
use crate::diagnostics_proofs::duplicate_report;
use crate::diagnostics_proofs::law_duplicate_in_index;
use crate::diagnostics_proofs::lemma_after_next;
use crate::diagnostics_proofs::lemma_step_shortens;
use crate::diagnostics_proofs::run;
use crate::diagnostics_proofs::steps_left;
use crate::diagnostics_proofs::theorem_diagnostics;
use crate::query::oracle_of;
use crate::query::steady;
use crate::query::Answer;
use crate::query::Question;
use crate::query::QuestionView;
use crate::query::Step;
use crate::text::copy_texts;
use crate::text::ordered;
use crate::text::same_text;
use crate::text::sort_texts;
use vstd::prelude::*;

verus! {

/// Something wrong with an installed package.
#[derive(Clone, Debug, PartialEq, Eq, Hash)]
pub enum InstalledPackagesDiagnostic {
    /// The metadata of the package cannot be read.
    MetadataUnavailable {
        /// The package whose metadata is missing.
        package: String,
        /// Where the package lies.
        path: String,
    },
    /// The package does not support the interpreter.
    IncompatiblePythonVersion {
        /// The package that needs another Python.
        package: String,
        /// The version of the interpreter.
        version: String,
        /// The Python versions the package supports.
        requires_python: String,
    },
    /// The package depends on a package that is not installed.
    MissingDependency {
        /// The package with the dependency.
        package: String,
        /// The dependency that is missing.
        requirement: Dependency,
    },
    /// The package depends on a package that is installed in a version its
    /// specifiers exclude.
    IncompatibleDependency {
        /// The package with the dependency.
        package: String,
        /// The version that is installed.
        version: String,
        /// The dependency that excludes it.
        requirement: Dependency,
    },
    /// More than one distribution of the package is installed.
    DuplicatePackage {
        /// The package installed more than once.
        package: String,
        /// Where its distributions lie, in slot order. The message lists
        /// them in the order of their text.
        paths: Vec<String>,
    },
}

/// The mathematical content of an [`InstalledPackagesDiagnostic`].
pub enum DiagnosticView {
    MetadataUnavailable { package: Seq<char>, path: Seq<char> },
    IncompatiblePythonVersion { package: Seq<char>, version: Seq<char>, requires_python: Seq<char> },
    MissingDependency { package: Seq<char>, requirement: DependencyView },
    IncompatibleDependency { package: Seq<char>, version: Seq<char>, requirement: DependencyView },
    DuplicatePackage { package: Seq<char>, paths: Seq<Seq<char>> },
}

impl DeepView for InstalledPackagesDiagnostic {
    type V = DiagnosticView;

    open spec fn deep_view(&self) -> DiagnosticView {
        match self {
            InstalledPackagesDiagnostic::MetadataUnavailable {
                package,
                path,
            } => DiagnosticView::MetadataUnavailable { package: package@, path: path@ },
            InstalledPackagesDiagnostic::IncompatiblePythonVersion {
                package,
                version,
                requires_python,
            } => DiagnosticView::IncompatiblePythonVersion {
                package: package@,
                version: version@,
                requires_python: requires_python@,
            },
            InstalledPackagesDiagnostic::MissingDependency {
                package,
                requirement,
            } => DiagnosticView::MissingDependency {
                package: package@,
                requirement: requirement@,
            },
            InstalledPackagesDiagnostic::IncompatibleDependency {
                package,
                version,
                requirement,
            } => DiagnosticView::IncompatibleDependency {
                package: package@,
                version: version@,
                requirement: requirement@,
            },
            InstalledPackagesDiagnostic::DuplicatePackage {
                package,
                paths,
            } => DiagnosticView::DuplicatePackage { package: package@, paths: paths.deep_view() },
        }
    }
}

impl View for InstalledPackagesDiagnostic {
    type V = DiagnosticView;

    open spec fn view(&self) -> DiagnosticView {
        self.deep_view()
    }
}

impl DiagnosticView {
    /// The package the diagnostic is about.
    pub open spec fn package(self) -> Seq<char> {
        match self {
            DiagnosticView::MetadataUnavailable { package, path } => package,
            DiagnosticView::IncompatiblePythonVersion {
                package,
                version,
                requires_python,
            } => package,
            DiagnosticView::MissingDependency { package, requirement } => package,
            DiagnosticView::IncompatibleDependency { package, version, requirement } => package,
            DiagnosticView::DuplicatePackage { package, paths } => package,
        }
    }

    /// The diagnostic involves the package called `name`: it is about that
    /// package, or it reports that package as installed in a version a
    /// dependency excludes.
    pub open spec fn involves(self, name: Seq<char>) -> bool {
        match self {
            DiagnosticView::IncompatibleDependency { package, version, requirement } => package
                == name || requirement.name == name,
            _ => self.package() == name,
        }
    }
}

impl DiagnosticView {
    /// The diagnostic has to do with the package called `name`: it is about
    /// that package, or it reports a dependency on that package as missing
    /// or as installed in a version the dependency excludes.
    pub open spec fn concerns(self, name: Seq<char>) -> bool {
        match self {
            DiagnosticView::MissingDependency { package, requirement } => package == name
                || requirement.name == name,
            DiagnosticView::IncompatibleDependency { package, version, requirement } => package
                == name || requirement.name == name,
            _ => self.package() == name,
        }
    }
}

/// Those of the diagnostics that have to do with the package called `name`.
pub open spec fn concerning(diagnostics: Seq<DiagnosticView>, name: Seq<char>) -> Seq<
    DiagnosticView,
> {
    diagnostics.filter(|diagnostic: DiagnosticView| diagnostic.concerns(name))
}

/// Those of the diagnostics that involve the package called `name`.
pub open spec fn involving(diagnostics: Seq<DiagnosticView>, name: Seq<char>) -> Seq<
    DiagnosticView,
> {
    diagnostics.filter(|diagnostic: DiagnosticView| diagnostic.involves(name))
}

impl InstalledPackagesDiagnostic {
    /// Whether the diagnostic involves the package called `name`.
    pub fn includes(&self, name: &str) -> (involved: bool)
        ensures
            involved == self@.involves(name@),
    {
        let name = name.to_owned();
        match self {
            InstalledPackagesDiagnostic::MetadataUnavailable { package, .. } => same_text(
                package,
                &name,
            ),
            InstalledPackagesDiagnostic::IncompatiblePythonVersion { package, .. } => same_text(
                package,
                &name,
            ),
            InstalledPackagesDiagnostic::MissingDependency { package, .. } => same_text(
                package,
                &name,
            ),
            InstalledPackagesDiagnostic::IncompatibleDependency {
                package,
                requirement,
                ..
            } => same_text(package, &name) || same_text(&requirement.name, &name),
            InstalledPackagesDiagnostic::DuplicatePackage { package, .. } => same_text(
                package,
                &name,
            ),
        }
    }
}

/// The lines that list `paths`, one to a line, each behind a dash.
pub open spec fn listing(paths: Seq<Seq<char>>) -> Seq<char>
    decreases paths.len(),
{
    if paths.len() == 0 {
        Seq::empty()
    } else {
        listing(paths.drop_last()) + "\n  - "@ + paths.last()
    }
}

impl DiagnosticView {
    /// The paths a diagnostic lists: those of a duplicate, and none
    /// otherwise.
    pub open spec fn paths(self) -> Seq<Seq<char>> {
        match self {
            DiagnosticView::DuplicatePackage { package, paths } => paths,
            _ => Seq::empty(),
        }
    }

    /// The message of the diagnostic, with the paths it lists given in the
    /// order `paths`.
    pub open spec fn wording(self, paths: Seq<Seq<char>>) -> Seq<char> {
        match self {
            DiagnosticView::MetadataUnavailable { package, path } => "The package `"@ + package
                + "` is broken or incomplete (unable to read `METADATA`). Consider recreating the virtualenv, or removing the package directory at: "@
                + path + "."@,
            DiagnosticView::IncompatiblePythonVersion {
                package,
                version,
                requires_python,
            } => "The package `"@ + package + "` requires Python "@ + requires_python + ", but `"@
                + version + "` is installed"@,
            DiagnosticView::MissingDependency { package, requirement } => "The package `"@
                + package + "` requires `"@ + requirement.text + "`, but it's not installed"@,
            DiagnosticView::IncompatibleDependency {
                package,
                version,
                requirement,
            } => "The package `"@ + package + "` requires `"@ + requirement.text + "`, but `"@
                + version + "` is installed"@,
            DiagnosticView::DuplicatePackage { package, paths: _ } => "The package `"@ + package
                + "` has multiple installed distributions: "@ + listing(paths),
        }
    }
}

impl InstalledPackagesDiagnostic {
    /// The message that tells a user what is wrong.
    ///
    /// A duplicate lists the paths of its distributions in ascending order
    /// of their text, character by character by code point: see
    /// [`crate::text::text_le`]. This is not the order in which paths
    /// compare component by component. `/x/a-b` comes before `/x/a/b` here,
    /// because `-` comes before `/`; compared by components it comes after,
    /// because `a` comes before `a-b`. Paths in one directory come in the
    /// same order either way.
    pub fn message(&self) -> (text: String)
        ensures
            exists|sorted: Seq<Seq<char>>|
                {
                    &&& ordered(sorted)
                    &&& sorted.to_multiset() == self@.paths().to_multiset()
                    &&& text@ == #[trigger] self@.wording(sorted)
                },
    {
        match self {
            InstalledPackagesDiagnostic::MetadataUnavailable { package, path } => {
                let mut text = String::from_str("The package `");
                text.append(package.as_str());
                text.append(
                    "` is broken or incomplete (unable to read `METADATA`). Consider recreating the virtualenv, or removing the package directory at: ",
                );
                text.append(path.as_str());
                text.append(".");
                proof {
                    assert(text@ == self@.wording(Seq::empty()));
                }
                text
            },
            InstalledPackagesDiagnostic::IncompatiblePythonVersion {
                package,
                version,
                requires_python,
            } => {
                let mut text = String::from_str("The package `");
                text.append(package.as_str());
                text.append("` requires Python ");
                text.append(requires_python.as_str());
                text.append(", but `");
                text.append(version.as_str());
                text.append("` is installed");
                proof {
                    assert(text@ == self@.wording(Seq::empty()));
                }
                text
            },
            InstalledPackagesDiagnostic::MissingDependency { package, requirement } => {
                let mut text = String::from_str("The package `");
                text.append(package.as_str());
                text.append("` requires `");
                text.append(requirement.text.as_str());
                text.append("`, but it's not installed");
                proof {
                    assert(text@ == self@.wording(Seq::empty()));
                }
                text
            },
            InstalledPackagesDiagnostic::IncompatibleDependency {
                package,
                version,
                requirement,
            } => {
                let mut text = String::from_str("The package `");
                text.append(package.as_str());
                text.append("` requires `");
                text.append(requirement.text.as_str());
                text.append("`, but `");
                text.append(version.as_str());
                text.append("` is installed");
                proof {
                    assert(text@ == self@.wording(Seq::empty()));
                }
                text
            },
            InstalledPackagesDiagnostic::DuplicatePackage { package, paths } => {
                let mut sorted = copy_texts(paths);
                sort_texts(&mut sorted);
                let mut text = String::from_str("The package `");
                text.append(package.as_str());
                text.append("` has multiple installed distributions: ");
                let ghost head = text@;
                let mut k: usize = 0;
                while k < sorted.len()
                    invariant
                        k <= sorted.len(),
                        text@ == head + listing(sorted.deep_view().take(k as int)),
                    decreases sorted.len() - k,
                {
                    proof {
                        assert(sorted.deep_view().take(k + 1).drop_last()
                            =~= sorted.deep_view().take(k as int));
                    }
                    text.append("\n  - ");
                    text.append(sorted[k].as_str());
                    proof {
                        let shorter = listing(sorted.deep_view().take(k as int));
                        assert(head + shorter + "\n  - "@ + sorted[k as int]@ =~= head + (shorter
                            + "\n  - "@ + sorted[k as int]@));
                    }
                    k += 1;
                }
                proof {
                    assert(sorted.deep_view().take(k as int) =~= sorted.deep_view());
                    assert(text@ == self@.wording(sorted.deep_view()));
                }
                text
            },
        }
    }
}

/// Where the distributions in the listed slots lie, in the order listed.
pub open spec fn paths_at(slots: Seq<Option<DistView>>, listed: Seq<usize>) -> Seq<Seq<char>> {
    Seq::new(listed.len(), |k: int| slots[listed[k] as int].unwrap().path)
}

/// The state of an audit between two questions.
pub struct Survey {
    /// The slots of the index audited.
    pub slots: Seq<Option<DistView>>,
    /// The version of the interpreter the index belongs to.
    pub interpreter_version: Seq<char>,
    /// The full Python version of the environment, which the supported
    /// Python versions of each distribution are held against.
    pub python_full_version: Seq<char>,
    /// The package names to audit, in the order they are audited.
    pub names: Seq<Seq<char>>,
    /// How many names are done with.
    pub position: int,
    /// What has been found wrong so far.
    pub diagnostics: Seq<DiagnosticView>,
}

/// The question an audit is waiting on.
pub enum Examined {
    /// Whether the Python versions that the distribution in `slot` supports
    /// contain the environment's.
    Python { slot: usize },
    /// Whether the markers of dependency number `dependency` of the
    /// distribution in `slot` hold.
    Marker { slot: usize, dependency: int },
    /// Whether the specifiers of that dependency contain the version of the
    /// distribution in slot `candidate`.
    Version { slot: usize, dependency: int, candidate: usize },
}

/// An audit stopped at a question.
pub struct Halted {
    pub survey: Survey,
    pub examined: Examined,
}

/// What a step of the audit leads to.
pub enum Finding {
    /// The audit stops at the question of `halted`.
    Ask { halted: Halted },
    /// The audit has ended with these diagnostics.
    Done(Seq<DiagnosticView>),
}

impl Survey {
    /// The survey with one more diagnostic.
    pub open spec fn report(self, diagnostic: DiagnosticView) -> Survey {
        Survey { diagnostics: self.diagnostics.push(diagnostic), ..self }
    }

    /// The survey with the current name done with.
    pub open spec fn advance(self) -> Survey {
        Survey { position: self.position + 1, ..self }
    }

    /// The declared dependencies of the distribution in `slot`.
    pub open spec fn dependencies(self, slot: usize) -> Seq<DependencyView> {
        self.slots[slot as int].unwrap().metadata.unwrap().requires_dist
    }

    /// Audits the names from the current one on, up to the first question.
    ///
    /// A name of which nothing is installed is passed over. A name installed
    /// more than once is reported as a duplicate, with the paths of all its
    /// distributions, and not looked at further. Of a single distribution
    /// the metadata must be readable, or that is reported. If it states which
    /// Python versions it supports, that is asked about; else its
    /// dependencies come next.
    pub open spec fn open(self) -> Finding
        decreases self.names.len() - self.position, 1int,
    {
        if self.position < 0 || self.position >= self.names.len() {
            Finding::Done(self.diagnostics)
        } else {
            let package = self.names[self.position];
            let found = named(self.slots, package);
            if found.len() == 0 {
                self.advance().open()
            } else if found.len() > 1 {
                self.report(
                    DiagnosticView::DuplicatePackage {
                        package,
                        paths: paths_at(self.slots, found),
                    },
                ).advance().open()
            } else {
                let slot = found[0];
                let dist = self.slots[slot as int].unwrap();
                match dist.metadata {
                    None => self.report(
                        DiagnosticView::MetadataUnavailable { package, path: dist.path },
                    ).advance().open(),
                    Some(metadata) => if metadata.requires_python is Some {
                        Finding::Ask {
                            halted: Halted { survey: self, examined: Examined::Python { slot } },
                        }
                    } else {
                        self.depend(slot, 0)
                    },
                }
            }
        }
    }

    /// Goes on to dependency number `dependency` of the distribution in
    /// `slot`. Past the last of them the next name is audited.
    pub open spec fn depend(self, slot: usize, dependency: int) -> Finding
        decreases self.names.len() - self.position, 0int,
    {
        if self.position < 0 || self.position >= self.names.len() {
            Finding::Done(self.diagnostics)
        } else if 0 <= dependency < self.dependencies(slot).len() {
            Finding::Ask {
                halted: Halted { survey: self, examined: Examined::Marker { slot, dependency } },
            }
        } else {
            self.advance().open()
        }
    }
}

impl Halted {
    /// The question waited on refers to things that exist: the audit is at a
    /// name of which exactly the distribution in `slot` is installed, with
    /// readable metadata.
    pub open spec fn sound(self) -> bool {
        let survey = self.survey;
        let slot = match self.examined {
            Examined::Python { slot } => slot,
            Examined::Marker { slot, dependency } => slot,
            Examined::Version { slot, dependency, candidate } => slot,
        };
        &&& 0 <= survey.position < survey.names.len()
        &&& named(survey.slots, survey.names[survey.position]) == seq![slot]
        &&& slot < survey.slots.len()
        &&& survey.slots[slot as int] is Some
        &&& survey.slots[slot as int].unwrap().metadata is Some
        &&& match self.examined {
            Examined::Python { slot } => survey.slots[slot as int].unwrap().metadata.unwrap().requires_python
                is Some,
            Examined::Marker { slot, dependency } => 0 <= dependency < survey.dependencies(
                slot,
            ).len(),
            Examined::Version { slot, dependency, candidate } => {
                &&& 0 <= dependency < survey.dependencies(slot).len()
                &&& survey.dependencies(slot)[dependency].version is Some
                &&& candidate < survey.slots.len()
                &&& survey.slots[candidate as int] is Some
            },
        }
    }

    /// The question the audit is stopped at.
    pub open spec fn question(self) -> QuestionView {
        let survey = self.survey;
        match self.examined {
            Examined::Python { slot } => QuestionView::Contains {
                specifiers: survey.slots[slot as int].unwrap().metadata.unwrap().requires_python.unwrap(),
                version: survey.python_full_version,
            },
            Examined::Marker { slot, dependency } => QuestionView::Applies {
                requirement: survey.dependencies(slot)[dependency].requirement(),
                extras: Seq::empty(),
            },
            Examined::Version { slot, dependency, candidate } => QuestionView::Contains {
                specifiers: survey.dependencies(slot)[dependency].version.unwrap(),
                version: survey.slots[candidate as int].unwrap().version,
            },
        }
    }

    /// Where the audit goes when the question is answered with `yes` or with
    /// a no.
    ///
    /// A distribution whose supported Python versions do not contain the
    /// environment's is reported; its dependencies are audited all the same.
    /// A dependency whose markers do not hold is passed over. One that
    /// applies is looked up by name: if nothing of that name is installed it
    /// is reported missing; if exactly one distribution is, and the
    /// dependency has version specifiers, the installed version is asked
    /// about; in every other case the dependency is accepted. An installed
    /// version that the specifiers do not contain is reported.
    pub open spec fn next(self, yes: bool) -> Finding {
        let survey = self.survey;
        let package = survey.names[survey.position];
        match self.examined {
            Examined::Python { slot } => {
                let dist = survey.slots[slot as int].unwrap();
                let after = if yes {
                    survey
                } else {
                    survey.report(
                        DiagnosticView::IncompatiblePythonVersion {
                            package,
                            version: survey.interpreter_version,
                            requires_python: dist.metadata.unwrap().requires_python.unwrap(),
                        },
                    )
                };
                after.depend(slot, 0)
            },
            Examined::Marker { slot, dependency } => {
                let wanted = survey.dependencies(slot)[dependency];
                let found = named(survey.slots, wanted.name);
                if !yes {
                    survey.depend(slot, dependency + 1)
                } else if found.len() == 0 {
                    survey.report(
                        DiagnosticView::MissingDependency { package, requirement: wanted },
                    ).depend(slot, dependency + 1)
                } else if found.len() == 1 && wanted.version is Some {
                    Finding::Ask {
                        halted: Halted {
                            survey,
                            examined: Examined::Version { slot, dependency, candidate: found[0] },
                        },
                    }
                } else {
                    survey.depend(slot, dependency + 1)
                }
            },
            Examined::Version { slot, dependency, candidate } => {
                let wanted = survey.dependencies(slot)[dependency];
                let after = if yes {
                    survey
                } else {
                    survey.report(
                        DiagnosticView::IncompatibleDependency {
                            package,
                            version: survey.slots[candidate as int].unwrap().version,
                            requirement: wanted,
                        },
                    )
                };
                after.depend(slot, dependency + 1)
            },
        }
    }
}

/// How an audit of `slots` begins when the names are audited in the order
/// given.
pub open spec fn commence(
    slots: Seq<Option<DistView>>,
    interpreter_version: Seq<char>,
    python_full_version: Seq<char>,
    names: Seq<Seq<char>>,
) -> Finding {
    (Survey {
        slots,
        interpreter_version,
        python_full_version,
        names,
        position: 0,
        diagnostics: Seq::empty(),
    }).open()
}

/// Where an audit picks up: at the current name, or inside it, at dependency
/// number `dependency` of the distribution in `slot`.
pub enum Cursor {
    Name,
    Inside { slot: usize, dependency: int },
}

/// Where a survey leads when it is taken up at the cursor.
pub open spec fn proceed_from(survey: Survey, cursor: Cursor) -> Finding {
    match cursor {
        Cursor::Name => survey.open(),
        Cursor::Inside { slot, dependency } => survey.depend(slot, dependency),
    }
}

/// What an audit rests on and never changes: the index, the Python version
/// of the environment and the order in which the names are audited.
struct Field<'a> {
    packages: &'a InstalledPackages,
    python_full_version: String,
    names: Vec<String>,
}

impl<'a> Field<'a> {
    /// The survey on this field that is done with `position` names and has
    /// found `diagnostics`.
    spec fn survey(self, position: int, diagnostics: Seq<DiagnosticView>) -> Survey {
        Survey {
            slots: self.packages@,
            interpreter_version: self.packages.spec_interpreter().python_version@,
            python_full_version: self.python_full_version@,
            names: self.names.deep_view(),
            position,
            diagnostics,
        }
    }
}

/// The question an audit is waiting on.
#[derive(Clone, Copy)]
enum Examining {
    Python { slot: usize },
    Marker { slot: usize, dependency: usize },
    Version { slot: usize, dependency: usize, candidate: usize },
}

impl DeepView for Examining {
    type V = Examined;

    closed spec fn deep_view(&self) -> Examined {
        match self {
            Examining::Python { slot } => Examined::Python { slot: *slot },
            Examining::Marker { slot, dependency } => Examined::Marker {
                slot: *slot,
                dependency: *dependency as int,
            },
            Examining::Version { slot, dependency, candidate } => Examined::Version {
                slot: *slot,
                dependency: *dependency as int,
                candidate: *candidate,
            },
        }
    }
}

/// An audit stopped at a question. [`Audit::resume`] takes it further.
pub struct Audit<'a> {
    field: Field<'a>,
    position: usize,
    diagnostics: Vec<InstalledPackagesDiagnostic>,
    examining: Examining,
}

impl<'a> View for Audit<'a> {
    type V = Halted;

    closed spec fn view(&self) -> Halted {
        Halted {
            survey: self.field.survey(self.position as int, self.diagnostics.deep_view()),
            examined: self.examining.deep_view(),
        }
    }
}

/// One step of an audit.
pub type DiagnosticsStep<'a> = Step<Audit<'a>, Vec<InstalledPackagesDiagnostic>>;

/// What a step of the audit led to.
pub open spec fn finding_of(step: DiagnosticsStep) -> Finding {
    match step {
        Step::Ask { pending, question } => Finding::Ask { halted: pending@ },
        Step::Done(diagnostics) => Finding::Done(diagnostics.deep_view()),
    }
}

/// A step that stops hands out the question its audit is stopped at, and the
/// question refers to things that exist.
pub open spec fn inquires(step: DiagnosticsStep) -> bool {
    match step {
        Step::Ask { pending, question } => {
            &&& pending@.survey.slots.len() <= usize::MAX
            &&& pending@.sound()
            &&& question@ == pending@.question()
        },
        Step::Done(_) => true,
    }
}

/// Adds a diagnostic to those found.
fn report(diagnostics: &mut Vec<InstalledPackagesDiagnostic>, diagnostic: InstalledPackagesDiagnostic)
    ensures
        final(diagnostics).deep_view() == old(diagnostics).deep_view().push(diagnostic@),
{
    diagnostics.push(diagnostic);
    proof {
        assert(diagnostics.deep_view() =~= old(diagnostics).deep_view().push(diagnostic@));
    }
}

/// Where the distributions in the listed slots lie.
fn paths_of(packages: &InstalledPackages, listed: &Vec<usize>) -> (paths: Vec<String>)
    requires
        forall|k: int|
            0 <= k < listed.len() ==> listed[k] < packages@.len() && packages@[listed[k] as int]
                is Some,
    ensures
        paths.deep_view() == paths_at(packages@, listed@),
{
    let mut paths: Vec<String> = Vec::new();
    let mut k: usize = 0;
    while k < listed.len()
        invariant
            k <= listed.len(),
            paths.len() == k,
            forall|j: int|
                0 <= j < listed.len() ==> listed[j] < packages@.len() && packages@[listed[j] as int]
                    is Some,
            forall|j: int| 0 <= j < k ==> paths[j]@ == packages@[listed[j] as int].unwrap().path,
        decreases listed.len() - k,
    {
        match packages.get(listed[k]) {
            Some(dist) => {
                paths.push(dist.path.clone());
            },
            None => {},
        }
        k += 1;
    }
    proof {
        assert(paths.deep_view() =~= paths_at(packages@, listed@));
    }
    paths
}

/// Stops the audit at the question of `examining`.
fn halt<'a>(
    field: Field<'a>,
    position: usize,
    diagnostics: Vec<InstalledPackagesDiagnostic>,
    examining: Examining,
) -> (step: DiagnosticsStep<'a>)
    requires
        field.packages.wf(),
        (Halted {
            survey: field.survey(position as int, diagnostics.deep_view()),
            examined: examining.deep_view(),
        }).sound(),
    ensures
        inquires(step),
        finding_of(step) == (Finding::Ask {
            halted: Halted {
                survey: field.survey(position as int, diagnostics.deep_view()),
                examined: examining.deep_view(),
            },
        }),
{
    let packages = field.packages;
    let question = match examining {
        Examining::Python { slot } => {
            let dist = packages.get(slot).unwrap();
            let metadata = dist.metadata.as_ref().unwrap();
            Question::Contains {
                specifiers: metadata.requires_python.as_ref().unwrap().clone(),
                version: field.python_full_version.clone(),
            }
        },
        Examining::Marker { slot, dependency } => {
            let dist = packages.get(slot).unwrap();
            let metadata = dist.metadata.as_ref().unwrap();
            let extras: Vec<String> = Vec::new();
            proof {
                assert(extras.deep_view() =~= Seq::<Seq<char>>::empty());
            }
            Question::Applies {
                requirement: metadata.requires_dist[dependency].requirement(),
                extras,
            }
        },
        Examining::Version { slot, dependency, candidate } => {
            let dist = packages.get(slot).unwrap();
            let metadata = dist.metadata.as_ref().unwrap();
            let installed = packages.get(candidate).unwrap();
            Question::Contains {
                specifiers: metadata.requires_dist[dependency].version.as_ref().unwrap().clone(),
                version: installed.version.clone(),
            }
        },
    };
    proof {
        packages.lemma_slots_countable();
    }
    let pending = Audit { field, position, diagnostics, examining };
    Step::Ask { pending, question }
}

/// Takes the audit up at the cursor and runs it to the next question or to
/// the end.
fn proceed<'a>(
    field: Field<'a>,
    position: usize,
    diagnostics: Vec<InstalledPackagesDiagnostic>,
    inside: Option<(usize, usize)>,
) -> (step: DiagnosticsStep<'a>)
    requires
        field.packages.wf(),
        position <= field.names.len(),
        match inside {
            Some((slot, dependency)) => {
                &&& position < field.names.len()
                &&& named(field.packages@, field.names.deep_view()[position as int]) == seq![slot]
                &&& slot < field.packages@.len()
                &&& field.packages@[slot as int] is Some
                &&& field.packages@[slot as int].unwrap().metadata is Some
            },
            None => true,
        },
    ensures
        inquires(step),
        finding_of(step) == proceed_from(
            field.survey(position as int, diagnostics.deep_view()),
            cursor_of(inside),
        ),
{
    let ghost goal = proceed_from(
        field.survey(position as int, diagnostics.deep_view()),
        cursor_of(inside),
    );
    let packages = field.packages;
    let mut at = position;
    let mut reports = diagnostics;
    let mut cursor = inside;
    loop
        invariant
            packages == field.packages,
            packages.wf(),
            at <= field.names.len(),
            match cursor {
                Some((slot, dependency)) => {
                    &&& at < field.names.len()
                    &&& named(packages@, field.names.deep_view()[at as int]) == seq![slot]
                    &&& slot < packages@.len()
                    &&& packages@[slot as int] is Some
                    &&& packages@[slot as int].unwrap().metadata is Some
                },
                None => true,
            },
            goal == proceed_from(
                field.survey(position as int, diagnostics.deep_view()),
                cursor_of(inside),
            ),
            goal == proceed_from(
                field.survey(at as int, reports.deep_view()),
                cursor_of(cursor),
            ),
        decreases
                field.names.len() - at,
                if cursor is Some {
                    0int
                } else {
                    1int
                },
    {
        let ghost survey = field.survey(at as int, reports.deep_view());
        proof {
            assert(field.names.deep_view().len() == field.names.len());
        }
        match cursor {
            Some((slot, dependency)) => {
                let dist = packages.get(slot).unwrap();
                let metadata = dist.metadata.as_ref().unwrap();
                proof {
                    assert(metadata.requires_dist.deep_view().len()
                        == metadata.requires_dist.len());
                }
                if dependency < metadata.requires_dist.len() {
                    return halt(
                        field,
                        at,
                        reports,
                        Examining::Marker { slot, dependency },
                    );
                }
                at += 1;
                cursor = None;
            },
            None => {
                if at >= field.names.len() {
                    return Step::Done(reports);
                }
                let found = packages.named_slots(field.names[at].as_str());
                if found.len() == 0 {
                    at += 1;
                } else if found.len() > 1 {
                    let paths = paths_of(packages, &found);
                    report(
                        &mut reports,
                        InstalledPackagesDiagnostic::DuplicatePackage {
                            package: field.names[at].clone(),
                            paths,
                        },
                    );
                    at += 1;
                } else {
                    let slot = found[0];
                    proof {
                        assert(found@ =~= seq![slot]);
                    }
                    let dist = packages.get(slot).unwrap();
                    match &dist.metadata {
                        None => {
                            report(
                                &mut reports,
                                InstalledPackagesDiagnostic::MetadataUnavailable {
                                    package: field.names[at].clone(),
                                    path: dist.path.clone(),
                                },
                            );
                            at += 1;
                        },
                        Some(metadata) => {
                            if metadata.requires_python.is_some() {
                                return halt(
                                    field,
                                    at,
                                    reports,
                                    Examining::Python { slot },
                                );
                            }
                            cursor = Some((slot, 0));
                        },
                    }
                }
            },
        }
    }
}

/// The cursor that stands for an optional place inside a name.
pub open spec fn cursor_of(inside: Option<(usize, usize)>) -> Cursor {
    match inside {
        Some((slot, dependency)) => Cursor::Inside { slot, dependency: dependency as int },
        None => Cursor::Name,
    }
}

impl<'a> Audit<'a> {
    /// The audit rests on a well-formed index and waits on a question about
    /// things that exist.
    #[verifier::type_invariant]
    closed spec fn inv(self) -> bool {
        self.field.packages.wf() && self@.sound()
    }

    /// Takes the audit further with the answer to the question it stopped
    /// at.
    ///
    /// An answer of the other kind than the question calls for is read as a
    /// yes or a no all the same: see [`Answer::affirms`].
    pub fn resume(self, answer: Answer) -> (step: DiagnosticsStep<'a>)
        ensures
            inquires(step),
            finding_of(step) == self@.next(answer.affirms()),
    {
        proof {
            use_type_invariant(&self);
        }
        let yes = answer.is_affirmative();
        let Audit { field, position, diagnostics, examining } = self;
        let mut diagnostics = diagnostics;
        let packages = field.packages;
        proof {
            assert(field.names.deep_view().len() == field.names.len());
        }
        match examining {
            Examining::Python { slot } => {
                if !yes {
                    let dist = packages.get(slot).unwrap();
                    let metadata = dist.metadata.as_ref().unwrap();
                    report(
                        &mut diagnostics,
                        InstalledPackagesDiagnostic::IncompatiblePythonVersion {
                            package: field.names[position].clone(),
                            version: packages.interpreter().python_version.clone(),
                            requires_python: metadata.requires_python.as_ref().unwrap().clone(),
                        },
                    );
                }
                proceed(field, position, diagnostics, Some((slot, 0)))
            },
            Examining::Marker { slot, dependency } => {
                let dist = packages.get(slot).unwrap();
                let metadata = dist.metadata.as_ref().unwrap();
                proof {
                    assert(metadata.requires_dist.deep_view().len()
                        == metadata.requires_dist.len());
                }
                if yes {
                    let wanted = &metadata.requires_dist[dependency];
                    let found = packages.named_slots(wanted.name.as_str());
                    if found.len() == 0 {
                        report(
                            &mut diagnostics,
                            InstalledPackagesDiagnostic::MissingDependency {
                                package: field.names[position].clone(),
                                requirement: wanted.copy(),
                            },
                        );
                    } else if found.len() == 1 && wanted.version.is_some() {
                        return halt(
                            field,
                            position,
                            diagnostics,
                            Examining::Version { slot, dependency, candidate: found[0] },
                        );
                    }
                }
                proceed(field, position, diagnostics, Some((slot, dependency + 1)))
            },
            Examining::Version { slot, dependency, candidate } => {
                let dist = packages.get(slot).unwrap();
                let metadata = dist.metadata.as_ref().unwrap();
                proof {
                    assert(metadata.requires_dist.deep_view().len()
                        == metadata.requires_dist.len());
                }
                if !yes {
                    let installed = packages.get(candidate).unwrap();
                    report(
                        &mut diagnostics,
                        InstalledPackagesDiagnostic::IncompatibleDependency {
                            package: field.names[position].clone(),
                            version: installed.version.clone(),
                            requirement: metadata.requires_dist[dependency].copy(),
                        },
                    );
                }
                proceed(field, position, diagnostics, Some((slot, dependency + 1)))
            },
        }
    }
}

impl InstalledPackages {
    /// Begins the audit of everything installed, in an environment whose
    /// full Python version is `python_full_version`.
    ///
    /// The names are audited in the order in which the hash index of the
    /// package names hands them out: each recorded name once, in an order not
    /// determined here. The diagnostics of one name are the same in whatever
    /// order the names come.
    pub fn diagnostics<'a>(&'a self, python_full_version: String) -> (step: DiagnosticsStep<'a>)
        requires
            self.wf(),
        ensures
            inquires(step),
            exists|names: Seq<Seq<char>>|
                {
                    &&& names.no_duplicates()
                    &&& names.to_set() == self.recorded_names()
                    &&& #[trigger] commence(
                        self@,
                        self.spec_interpreter().python_version@,
                        python_full_version@,
                        names,
                    ) == finding_of(step)
                },
    {
        let names = self.names();
        let field = Field { packages: self, python_full_version, names };
        let diagnostics: Vec<InstalledPackagesDiagnostic> = Vec::new();
        proof {
            assert(diagnostics.deep_view() =~= Seq::<DiagnosticView>::empty());
        }
        let ghost order = field.names.deep_view();
        let step = proceed(field, 0, diagnostics, None);
        proof {
            assert(commence(
                self@,
                self.spec_interpreter().python_version@,
                python_full_version@,
                order,
            ) == finding_of(step));
        }
        step
    }
}

/// What taking an audit from `start` to its end with the answers of
/// `answer` comes to. Diagnostics are those the oracle that `answer` stands
/// for leads the audit to. A failure is one that `answer` gave to a question
/// at which the audit, led that far by the same oracle, stood. So an audit
/// that asks nothing, or whose every question is answered, comes to its
/// diagnostics.
pub open spec fn concluded<E, F: Fn(&Question) -> Result<Answer, E>>(
    start: Finding,
    answer: F,
    outcome: Result<Vec<InstalledPackagesDiagnostic>, E>,
) -> bool {
    match outcome {
        Ok(diagnostics) => exists|fuel: nat|
            run(start, oracle_of(answer), fuel) == Some(diagnostics.deep_view()),
        Err(failure) => exists|question: Question, steps: nat|
            #![trigger answer.ensures((&question,), Err::<Answer, E>(failure)), after(start, oracle_of(answer), steps)]
            {
                &&& after(start, oracle_of(answer), steps) matches Finding::Ask { halted }
                    && question@ == halted.question()
                &&& answer.ensures((&question,), Err::<Answer, E>(failure))
            },
    }
}

/// Takes an audit to its end, getting the answer to each of its questions
/// from `answer`.
///
/// When `answer` fails at a question of the audit, the audit is given up
/// and the failure handed back. Otherwise the audit ends with the
/// diagnostics that the oracle which `answer` stands for leads it to, and it
/// does end. An audit that has ended already is not asked anything.
pub fn conclude<'a, E, F>(step: DiagnosticsStep<'a>, answer: F) -> (outcome: Result<
    Vec<InstalledPackagesDiagnostic>,
    E,
>) where F: Fn(&Question) -> Result<Answer, E>
    requires
        inquires(step),
        forall|question: &Question| #[trigger] answer.requires((question,)),
        steady(answer),
    ensures
        concluded(finding_of(step), answer, outcome),
        finding_of(step) matches Finding::Done(result) ==> (outcome matches Ok(diagnostics)
            && diagnostics.deep_view() == result),
{
    let ghost oracle = oracle_of(answer);
    let ghost start = finding_of(step);
    let ghost mut taken: nat = 0;
    let mut current = step;
    loop
        invariant
            inquires(current),
            oracle == oracle_of(answer),
            start == finding_of(step),
            steady(answer),
            forall|question: &Question| #[trigger] answer.requires((question,)),
            forall|fuel: nat|
                run(finding_of(current), oracle, fuel) is Some ==> #[trigger] run(
                    start,
                    oracle,
                    fuel + taken,
                ) == run(finding_of(current), oracle, fuel),
            after(start, oracle, taken) == finding_of(current),
            start is Done ==> taken == 0,
        decreases steps_left(finding_of(current)),
    {
        match current {
            Step::Done(diagnostics) => {
                proof {
                    assert(run(
                        finding_of(Step::<Audit<'a>, _>::Done(diagnostics)),
                        oracle,
                        0,
                    ) == Some(diagnostics.deep_view()));
                    assert(run(start, oracle, 0 + taken) == Some(diagnostics.deep_view()));
                }
                return Ok(diagnostics);
            },
            Step::Ask { pending, question } => {
                let reply = match answer(&question) {
                    Ok(reply) => reply,
                    Err(failure) => {
                        let outcome = Err(failure);
                        proof {
                            assert(answer.ensures((&question,), Err::<Answer, E>(failure)));
                            assert(outcome matches Err(failed) && failed == failure);
                            assert(after(start, oracle_of(answer), taken) matches Finding::Ask {
                                halted,
                            } && question@ == halted.question());
                        }
                        return outcome;
                    },
                };
                let ghost halted = pending@;
                let ghost before = Finding::Ask { halted };
                proof {
                    assert(oracle(halted.question()) == reply.affirms());
                    lemma_step_shortens(halted, reply.affirms());
                    lemma_after_next(start, oracle, taken);
                }
                current = pending.resume(reply);
                proof {
                    assert forall|fuel: nat|
                        run(finding_of(current), oracle, fuel) is Some implies #[trigger] run(
                        start,
                        oracle,
                        fuel + (taken + 1),
                    ) == run(finding_of(current), oracle, fuel) by {
                        assert(run(before, oracle, fuel + 1) == run(
                            finding_of(current),
                            oracle,
                            fuel,
                        ));
                        assert(run(start, oracle, (fuel + 1) + taken) == run(
                            before,
                            oracle,
                            fuel + 1,
                        ));
                        assert((fuel + 1) + taken == fuel + (taken + 1));
                    }
                    taken = taken + 1;
                }
            },
        }
    }
}

impl InstalledPackages {
    /// Audits everything installed, in an environment whose full Python
    /// version is `python_full_version`, getting the answer to each question
    /// from `answer`.
    ///
    /// When `answer` fails at a question of the audit, the failure is handed
    /// back. Otherwise the diagnostics are the reports of each recorded name
    /// in turn, by the oracle that `answer` stands for: see
    /// [`Survey::reports_from`]. The names come in the order of the hash
    /// index, which is not determined here. Whatever the order, a package of
    /// which more than one distribution is installed gets its one duplicate
    /// report, and nothing else among the diagnostics has to do with it.
    pub fn diagnostics_with<E, F>(&self, python_full_version: String, answer: F) -> (outcome: Result<
        Vec<InstalledPackagesDiagnostic>,
        E,
    >) where F: Fn(&Question) -> Result<Answer, E>
        requires
            self.wf(),
            forall|question: &Question| #[trigger] answer.requires((question,)),
            steady(answer),
        ensures
            exists|names: Seq<Seq<char>>|
                {
                    &&& names.no_duplicates()
                    &&& names.to_set() == self.recorded_names()
                    &&& concluded(
                        (#[trigger] audit_of(self, python_full_version@, names)).open(),
                        answer,
                        outcome,
                    )
                    &&& outcome matches Ok(diagnostics) ==> diagnostics.deep_view() == audit_of(
                        self,
                        python_full_version@,
                        names,
                    ).reports_from(oracle_of(answer), 0)
                },
            outcome matches Ok(diagnostics) ==> forall|package: Seq<char>|
                named(self@, package).len() > 1 ==> #[trigger] concerning(
                    diagnostics.deep_view(),
                    package,
                ) == seq![duplicate_report(self@, package)],
    {
        let ghost version = python_full_version@;
        let step = self.diagnostics(python_full_version);
        let ghost names = choose|names: Seq<Seq<char>>|
            {
                &&& names.no_duplicates()
                &&& names.to_set() == self.recorded_names()
                &&& #[trigger] commence(
                    self@,
                    self.spec_interpreter().python_version@,
                    version,
                    names,
                ) == finding_of(step)
            };
        let outcome = conclude(step, answer);
        proof {
            self.lemma_slots_countable();
            let survey = audit_of(self, version, names);
            assert(survey.open() == finding_of(step));
            if outcome is Ok {
                let diagnostics = outcome->Ok_0;
                let fuel = choose|fuel: nat|
                    run(finding_of(step), oracle_of(answer), fuel) == Some(
                        diagnostics.deep_view(),
                    );
                theorem_diagnostics(
                    self@,
                    self.spec_interpreter().python_version@,
                    version,
                    names,
                    oracle_of(answer),
                    fuel,
                );
                assert(diagnostics.deep_view() == survey.reports_from(oracle_of(answer), 0));
                assert forall|package: Seq<char>| named(self@, package).len() > 1 implies #[trigger]
                    concerning(diagnostics.deep_view(), package) == seq![
                    duplicate_report(self@, package),
                ] by {
                    law_duplicate_in_index(self, version, names, oracle_of(answer), package);
                }
            }
        }
        outcome
    }
}

} // verus!
