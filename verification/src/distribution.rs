//! Installed distributions, as the index and the audits read them.
use crate::requirement::Requirement;
use crate::requirement::RequirementView;
use crate::requirement::Target;
use crate::requirement::TargetView;
use crate::text::copy_texts;
use vstd::prelude::*;

verus! {

/// One dependency declared in the metadata of an installed distribution.
#[derive(Clone, Debug, PartialEq, Eq, Hash)]
pub struct Dependency {
    /// The normalised name of the package depended on.
    pub name: String,
    /// The extras of that package the dependency activates.
    pub extras: Vec<String>,
    /// The version specifiers, when the dependency is constrained by version.
    /// A dependency with no constraint, or one pinned to a URL, has none.
    pub version: Option<String>,
    /// The dependency as written, marker included.
    pub text: String,
}

/// The mathematical content of a [`Dependency`].
pub struct DependencyView {
    pub name: Seq<char>,
    pub extras: Seq<Seq<char>>,
    pub version: Option<Seq<char>>,
    pub text: Seq<char>,
}

impl DependencyView {
    /// The dependency read as a requirement on the package it names.
    pub open spec fn requirement(self) -> RequirementView {
        RequirementView {
            target: TargetView::Name(self.name),
            extras: self.extras,
            text: self.text,
        }
    }
}

impl DeepView for Dependency {
    type V = DependencyView;

    open spec fn deep_view(&self) -> DependencyView {
        DependencyView {
            name: self.name@,
            extras: self.extras.deep_view(),
            version: self.version.deep_view(),
            text: self.text@,
        }
    }
}

impl View for Dependency {
    type V = DependencyView;

    open spec fn view(&self) -> DependencyView {
        self.deep_view()
    }
}

impl Dependency {
    /// The dependency read as a requirement on the package it names.
    pub fn requirement(&self) -> (requirement: Requirement)
        ensures
            requirement@ == self@.requirement(),
    {
        Requirement {
            target: Target::Name(self.name.clone()),
            extras: copy_texts(&self.extras),
            text: self.text.clone(),
        }
    }

    /// A fresh copy of the dependency.
    pub fn copy(&self) -> (copy: Dependency)
        ensures
            copy@ == self@,
    {
        Dependency {
            name: self.name.clone(),
            extras: copy_texts(&self.extras),
            version: crate::text::copy_optional_text(&self.version),
            text: self.text.clone(),
        }
    }
}

/// The metadata of an installed distribution, already parsed.
#[derive(Clone, Debug, PartialEq, Eq, Hash)]
pub struct Metadata {
    /// The Python versions the distribution supports, as version specifiers.
    pub requires_python: Option<String>,
    /// The declared dependencies, in the order they are declared.
    pub requires_dist: Vec<Dependency>,
}

/// The mathematical content of a [`Metadata`].
pub struct MetadataView {
    pub requires_python: Option<Seq<char>>,
    pub requires_dist: Seq<DependencyView>,
}

impl DeepView for Metadata {
    type V = MetadataView;

    open spec fn deep_view(&self) -> MetadataView {
        MetadataView {
            requires_python: self.requires_python.deep_view(),
            requires_dist: self.requires_dist.deep_view(),
        }
    }
}

impl View for Metadata {
    type V = MetadataView;

    open spec fn view(&self) -> MetadataView {
        self.deep_view()
    }
}

impl Metadata {
    /// A fresh copy of the metadata.
    pub fn copy(&self) -> (copy: Metadata)
        ensures
            copy@ == self@,
    {
        let mut requires_dist: Vec<Dependency> = Vec::new();
        let mut i: usize = 0;
        while i < self.requires_dist.len()
            invariant
                i <= self.requires_dist.len(),
                requires_dist.len() == i,
                forall|j: int| 0 <= j < i ==> requires_dist[j]@ == self.requires_dist[j]@,
            decreases self.requires_dist.len() - i,
        {
            requires_dist.push(self.requires_dist[i].copy());
            i += 1;
        }
        proof {
            assert(requires_dist.deep_view() =~= self.requires_dist.deep_view());
        }
        Metadata {
            requires_python: crate::text::copy_optional_text(&self.requires_python),
            requires_dist,
        }
    }
}

/// One distribution found installed in an environment.
#[derive(Clone, Debug, PartialEq, Eq, Hash)]
pub struct InstalledDist {
    /// The normalised name of the package.
    pub name: String,
    /// The installed version.
    pub version: String,
    /// Where the distribution lies on disk.
    pub path: String,
    /// The URL it was installed from, for a URL or editable install.
    pub url: Option<String>,
    /// The parsed metadata; absent when it could not be read.
    pub metadata: Option<Metadata>,
}

/// The mathematical content of an [`InstalledDist`].
pub struct DistView {
    pub name: Seq<char>,
    pub version: Seq<char>,
    pub path: Seq<char>,
    pub url: Option<Seq<char>>,
    pub metadata: Option<MetadataView>,
}

impl DeepView for InstalledDist {
    type V = DistView;

    open spec fn deep_view(&self) -> DistView {
        DistView {
            name: self.name@,
            version: self.version@,
            path: self.path@,
            url: self.url.deep_view(),
            metadata: self.metadata.deep_view(),
        }
    }
}

impl View for InstalledDist {
    type V = DistView;

    open spec fn view(&self) -> DistView {
        self.deep_view()
    }
}

impl InstalledDist {
    /// A fresh copy of the distribution.
    pub fn copy(&self) -> (copy: InstalledDist)
        ensures
            copy@ == self@,
    {
        InstalledDist {
            name: self.name.clone(),
            version: self.version.clone(),
            path: self.path.clone(),
            url: crate::text::copy_optional_text(&self.url),
            metadata: match &self.metadata {
                Some(metadata) => Some(metadata.copy()),
                None => None,
            },
        }
    }
}

/// What the index needs to know of the interpreter whose environment it
/// describes.
#[derive(Clone, Debug, PartialEq, Eq, Hash)]
pub struct Interpreter {
    /// The directories the interpreter searches for imports, in order.
    pub sys_path: Vec<String>,
    /// The version of the interpreter.
    pub python_version: String,
}

/// The mathematical content of an [`Interpreter`].
pub struct InterpreterView {
    pub sys_path: Seq<Seq<char>>,
    pub python_version: Seq<char>,
}

impl DeepView for Interpreter {
    type V = InterpreterView;

    open spec fn deep_view(&self) -> InterpreterView {
        InterpreterView {
            sys_path: self.sys_path.deep_view(),
            python_version: self.python_version@,
        }
    }
}

impl View for Interpreter {
    type V = InterpreterView;

    open spec fn view(&self) -> InterpreterView {
        self.deep_view()
    }
}

impl Interpreter {
    /// A fresh copy of the interpreter's description.
    pub fn copy(&self) -> (copy: Interpreter)
        ensures
            copy@ == self@,
    {
        Interpreter {
            sys_path: copy_texts(&self.sys_path),
            python_version: self.python_version.clone(),
        }
    }
}

} // verus!
