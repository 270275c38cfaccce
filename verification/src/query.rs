//! Questions the library cannot answer itself.
//!
//! Whether a marker expression holds, whether a version lies within a set of
//! specifiers and whether an installed distribution comes from the source a
//! requirement demands are decided elsewhere. A computation that needs such a
//! fact stops, hands out a [`Question`] and goes on when it is resumed with
//! the [`Answer`].
use crate::requirement::Requirement;
use crate::requirement::RequirementView;
use vstd::prelude::*;

verus! {

/// How an installed distribution stands to the source a requirement demands.
#[derive(Clone, Copy, Debug, PartialEq, Eq, Structural, Hash)]
pub enum Satisfaction {
    /// The distribution comes from that source.
    Satisfied,
    /// The distribution comes from elsewhere, or in another version.
    Mismatch,
    /// The distribution comes from that source, which has changed since.
    OutOfDate,
}

/// The answer to a [`Question`].
#[derive(Clone, Copy, Debug, PartialEq, Eq, Structural, Hash)]
pub enum Answer {
    /// Whether the markers hold, or the version is contained.
    Holds(bool),
    /// How the distribution stands to the requirement.
    Checked(Satisfaction),
}

impl Answer {
    /// The answer is a yes: the condition holds, or the distribution
    /// satisfies the requirement.
    pub open spec fn affirms(self) -> bool {
        match self {
            Answer::Holds(holds) => holds,
            Answer::Checked(satisfaction) => satisfaction == Satisfaction::Satisfied,
        }
    }

    /// Whether the answer is a yes.
    pub fn is_affirmative(&self) -> (yes: bool)
        ensures
            yes == self.affirms(),
    {
        match self {
            Answer::Holds(holds) => *holds,
            Answer::Checked(Satisfaction::Satisfied) => true,
            Answer::Checked(_) => false,
        }
    }
}

/// A fact to be found out by the caller.
#[derive(Clone, Debug, PartialEq, Eq, Hash)]
pub enum Question {
    /// Do the markers of `requirement` hold in the environment at hand, with
    /// these extras active? Answered by [`Answer::Holds`].
    Applies { requirement: Requirement, extras: Vec<String> },
    /// Does the distribution in slot `distribution` come from the source
    /// that `requirement` demands? Answered by [`Answer::Checked`].
    Matches { distribution: usize, requirement: Requirement },
    /// Do the version specifiers contain the version? Answered by
    /// [`Answer::Holds`].
    Contains { specifiers: String, version: String },
}

/// The mathematical content of a [`Question`].
pub enum QuestionView {
    Applies { requirement: RequirementView, extras: Seq<Seq<char>> },
    Matches { distribution: usize, requirement: RequirementView },
    Contains { specifiers: Seq<char>, version: Seq<char> },
}

impl DeepView for Question {
    type V = QuestionView;

    open spec fn deep_view(&self) -> QuestionView {
        match self {
            Question::Applies { requirement, extras } => QuestionView::Applies {
                requirement: requirement@,
                extras: extras.deep_view(),
            },
            Question::Matches { distribution, requirement } => QuestionView::Matches {
                distribution: *distribution,
                requirement: requirement@,
            },
            Question::Contains { specifiers, version } => QuestionView::Contains {
                specifiers: specifiers@,
                version: version@,
            },
        }
    }
}

impl View for Question {
    type V = QuestionView;

    open spec fn view(&self) -> QuestionView {
        self.deep_view()
    }
}

/// Where a computation stands after a step: waiting for an answer, or done.
pub enum Step<M, T> {
    /// The computation needs `question` answered. Resume `pending` with the
    /// answer.
    Ask { pending: M, question: Question },
    /// The computation has ended with this result.
    Done(T),
}

/// The oracle that a function answering questions stands for: it says yes
/// to a question exactly when the function can answer it with a yes.
pub open spec fn oracle_of<E, F: Fn(&Question) -> Result<Answer, E>>(answer: F) -> spec_fn(
    QuestionView,
) -> bool {
    |asked: QuestionView|
        exists|question: Question, reply: Answer|
            question@ == asked && #[trigger] answer.ensures(
                (&question,),
                Ok::<Answer, E>(reply),
            ) && reply.affirms()
}

/// The function answers like an oracle: whenever it answers, it answers the
/// same question in the same way.
pub open spec fn steady<E, F: Fn(&Question) -> Result<Answer, E>>(answer: F) -> bool {
    forall|one: Question, other: Question, first: Answer, second: Answer|
        one@ == other@ && #[trigger] answer.ensures((&one,), Ok::<Answer, E>(first))
            && #[trigger] answer.ensures((&other,), Ok::<Answer, E>(second)) ==> first.affirms()
            == second.affirms()
}

} // verus!
