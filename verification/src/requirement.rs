//! Requirements: what is asked of an environment.
use crate::text::copy_texts;
use crate::text::same_text;
use crate::text::same_texts;
use vstd::prelude::*;

verus! {

/// How a requirement finds the distributions that could meet it.
#[derive(Clone, Debug, PartialEq, Eq, Hash)]
pub enum Target {
    /// By the normalised name of the package.
    Name(String),
    /// By the exact URL the distribution was installed from.
    Url(String),
}

/// The mathematical content of a [`Target`].
pub enum TargetView {
    Name(Seq<char>),
    Url(Seq<char>),
}

impl DeepView for Target {
    type V = TargetView;

    open spec fn deep_view(&self) -> TargetView {
        match self {
            Target::Name(name) => TargetView::Name(name@),
            Target::Url(url) => TargetView::Url(url@),
        }
    }
}

impl View for Target {
    type V = TargetView;

    open spec fn view(&self) -> TargetView {
        self.deep_view()
    }
}

impl Target {
    /// Whether two targets are of the same kind and carry the same text.
    pub fn same(&self, other: &Target) -> (same: bool)
        ensures
            same == (self@ == other@),
    {
        match (self, other) {
            (Target::Name(a), Target::Name(b)) => same_text(a, b),
            (Target::Url(a), Target::Url(b)) => same_text(a, b),
            _ => false,
        }
    }

    /// A fresh copy of the target.
    pub fn copy(&self) -> (copy: Target)
        ensures
            copy@ == self@,
    {
        match self {
            Target::Name(name) => Target::Name(name.clone()),
            Target::Url(url) => Target::Url(url.clone()),
        }
    }
}

/// One requirement: what it targets, the extras it activates and the text it
/// was written as.
///
/// The text is what reports quote. It also carries whatever the library does
/// not read itself: the demanded source and the marker expression. Two
/// requirements are the same requirement when all three parts agree.
#[derive(Clone, Debug, PartialEq, Eq, Hash)]
pub struct Requirement {
    pub target: Target,
    pub extras: Vec<String>,
    pub text: String,
}

/// The mathematical content of a [`Requirement`].
pub struct RequirementView {
    pub target: TargetView,
    pub extras: Seq<Seq<char>>,
    pub text: Seq<char>,
}

impl DeepView for Requirement {
    type V = RequirementView;

    open spec fn deep_view(&self) -> RequirementView {
        RequirementView {
            target: self.target@,
            extras: self.extras.deep_view(),
            text: self.text@,
        }
    }
}

impl View for Requirement {
    type V = RequirementView;

    open spec fn view(&self) -> RequirementView {
        self.deep_view()
    }
}

impl Requirement {
    /// Whether two requirements are the same requirement.
    pub fn same(&self, other: &Requirement) -> (same: bool)
        ensures
            same == (self@ == other@),
    {
        self.target.same(&other.target) && same_texts(&self.extras, &other.extras) && same_text(
            &self.text,
            &other.text,
        )
    }

    /// A fresh copy of the requirement.
    pub fn copy(&self) -> (copy: Requirement)
        ensures
            copy@ == self@,
    {
        Requirement {
            target: self.target.copy(),
            extras: copy_texts(&self.extras),
            text: self.text.clone(),
        }
    }
}

} // verus!
