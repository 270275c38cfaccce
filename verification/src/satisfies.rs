//! Deciding whether what is installed already satisfies a set of
//! requirements.
//!
//! The decision walks the requirements and, through the metadata of the
//! distributions that meet them, their dependencies. It keeps a stack of
//! requirements still to visit and the list of every requirement seen, so
//! that each is visited once; a hash index by text finds a requirement that
//! is met again. It ends at the first requirement that is not satisfied.
//!
//! Three things are asked of the caller on the way: whether the markers of a
//! requirement hold, whether a distribution comes from the source a
//! requirement demands, and the same of each constraint registered for the
//! distribution's name. The walk stops at each such question and is resumed
//! with the answer: see [`InstalledPackages::satisfies`] and
//! [`Traversal::resume`]. Where the answers come from a function that
//! answers the same question in the same way each time,
//! [`InstalledPackages::satisfies_with`] takes the walk to its end.
use crate::distribution::DistView;
use crate::index::catalogues;
use crate::index::entries;
use crate::index::index_append;
use crate::index::index_get;
use crate::index::index_new;
use crate::index::lemma_catalogues_next;
use crate::index::lemma_positions_complete;
use crate::index::lemma_positions_within;
use crate::index::positions;
use crate::index::Index;
use crate::installed_packages::named;
use crate::installed_packages::sourced;
use crate::installed_packages::InstalledPackages;
use crate::query::oracle_of;
use crate::query::steady;
use crate::query::Answer;
use crate::query::Question;
use crate::query::QuestionView;
use crate::query::Step;
use crate::requirement::Requirement;
use crate::requirement::RequirementView;
use crate::requirement::Target;
use crate::requirement::TargetView;
use crate::satisfies_proofs::after;
use crate::satisfies_proofs::goes_on_orderly;
use crate::satisfies_proofs::lemma_after_next;
use crate::satisfies_proofs::lemma_pop_steps;
use crate::satisfies_proofs::lemma_step_shortens;
use crate::satisfies_proofs::run;
use crate::satisfies_proofs::steps_left;
use crate::satisfies_proofs::theorem_verdict;
use crate::satisfies_proofs::upheld;
use crate::text::copy_texts;
use vstd::prelude::*;

verus! {

/// The verdict on a set of requirements.
#[derive(Clone, Debug, PartialEq, Eq)]
pub enum SatisfiesResult {
    /// Every requirement visited is satisfied. The list holds each of them
    /// once, the given ones and those found through dependencies, in the
    /// order they were first met.
    Fresh { recursive_requirements: Vec<Requirement> },
    /// The requirement with this text is not satisfied: nothing installed
    /// could meet it, or more than one distribution could, or the one that
    /// could comes from another source, fails a constraint or has metadata
    /// that cannot be read. It is the first such requirement the walk met;
    /// others may exist.
    Unsatisfied(String),
}

/// The mathematical content of a [`SatisfiesResult`].
pub enum Verdict {
    Fresh(Seq<RequirementView>),
    Unsatisfied(Seq<char>),
}

impl DeepView for SatisfiesResult {
    type V = Verdict;

    open spec fn deep_view(&self) -> Verdict {
        match self {
            SatisfiesResult::Fresh { recursive_requirements } => Verdict::Fresh(
                recursive_requirements.deep_view(),
            ),
            SatisfiesResult::Unsatisfied(text) => Verdict::Unsatisfied(text@),
        }
    }
}

impl View for SatisfiesResult {
    type V = Verdict;

    open spec fn view(&self) -> Verdict {
        self.deep_view()
    }
}

/// For each constraint, the package name it is registered under. A
/// constraint on a URL is registered under no name.
pub open spec fn constraint_labels(constraints: Seq<RequirementView>) -> Seq<Option<Seq<char>>> {
    Seq::new(
        constraints.len(),
        |i: int|
            match constraints[i].target {
                TargetView::Name(name) => Some(name),
                TargetView::Url(_) => None,
            },
    )
}

/// The state of a walk between two questions.
pub struct Walk {
    /// The slots of the index walked.
    pub slots: Seq<Option<DistView>>,
    /// The requirements given.
    pub roots: Seq<RequirementView>,
    /// The constraints given.
    pub constraints: Seq<RequirementView>,
    /// The requirements still to visit; the last is visited next.
    pub stack: Seq<RequirementView>,
    /// Every requirement met so far, each once, in the order met.
    pub seen: Seq<RequirementView>,
}

/// The question a walk is waiting on.
pub enum Waiting {
    /// Whether the given requirement number `root` applies.
    Seeding { root: int },
    /// Whether the distribution in `slot` comes from the source that
    /// `requirement` demands.
    Source { requirement: RequirementView, slot: usize },
    /// Whether the distribution in `slot` meets the constraint at `position`
    /// among those registered for its name.
    Constraint { requirement: RequirementView, slot: usize, position: int },
    /// Whether the dependency at `position` of the distribution in `slot`
    /// applies, the extras of `requirement` being active.
    Dependency { requirement: RequirementView, slot: usize, position: int },
}

/// A walk stopped at a question.
pub struct Paused {
    pub walk: Walk,
    pub waiting: Waiting,
}

/// What a step of the walk leads to.
pub enum Outcome {
    /// The walk stops at the question of `paused`.
    Ask { paused: Paused },
    /// The walk has ended.
    Done(Verdict),
}

impl Walk {
    /// The slot exists and holds a distribution.
    pub open spec fn holds(self, slot: usize) -> bool {
        slot < self.slots.len() && self.slots[slot as int] is Some
    }

    /// The slots of the installed distributions that could meet the
    /// requirement: those of its name, or those installed from its URL.
    pub open spec fn candidates(self, requirement: RequirementView) -> Seq<usize> {
        match requirement.target {
            TargetView::Name(name) => named(self.slots, name),
            TargetView::Url(url) => sourced(self.slots, url),
        }
    }

    /// The positions of the constraints registered for the name of the
    /// distribution in `slot`, in the order the constraints were given.
    pub open spec fn registered(self, slot: usize) -> Seq<usize> {
        positions(constraint_labels(self.constraints), self.slots[slot as int].unwrap().name)
    }

    /// The walk with `requirement` noted as met and put up for a visit,
    /// unless it was met before.
    pub open spec fn enqueue(self, requirement: RequirementView) -> Walk {
        if self.seen.contains(requirement) {
            self
        } else {
            Walk {
                stack: self.stack.push(requirement),
                seen: self.seen.push(requirement),
                ..self
            }
        }
    }

    /// Takes the next requirement off the stack. With none left, everything
    /// seen is satisfied. A requirement with no candidate, or with more than
    /// one, is not satisfied. Of a single candidate the source is asked
    /// about.
    pub open spec fn pop(self) -> Outcome {
        if self.stack.len() == 0 {
            Outcome::Done(Verdict::Fresh(self.seen))
        } else {
            let requirement = self.stack.last();
            let rest = Walk { stack: self.stack.drop_last(), ..self };
            let candidates = rest.candidates(requirement);
            if candidates.len() == 1 {
                Outcome::Ask {
                    paused: Paused {
                        walk: rest,
                        waiting: Waiting::Source { requirement, slot: candidates[0] },
                    },
                }
            } else {
                Outcome::Done(Verdict::Unsatisfied(requirement.text))
            }
        }
    }

    /// Goes on to the constraint at `position` among those registered for
    /// the candidate's name. Past the last of them the candidate's metadata
    /// is looked at: if it cannot be read, the requirement is not satisfied;
    /// else its dependencies come next.
    pub open spec fn constrain(
        self,
        requirement: RequirementView,
        slot: usize,
        position: int,
    ) -> Outcome {
        if position < self.registered(slot).len() {
            Outcome::Ask {
                paused: Paused {
                    walk: self,
                    waiting: Waiting::Constraint { requirement, slot, position },
                },
            }
        } else if self.slots[slot as int].unwrap().metadata is None {
            Outcome::Done(Verdict::Unsatisfied(requirement.text))
        } else {
            self.expand(requirement, slot, 0)
        }
    }

    /// Goes on to the dependency at `position` of the candidate. Past the
    /// last of them the next requirement is taken off the stack.
    pub open spec fn expand(
        self,
        requirement: RequirementView,
        slot: usize,
        position: int,
    ) -> Outcome {
        let dependencies = self.slots[slot as int].unwrap().metadata.unwrap().requires_dist;
        if position < dependencies.len() {
            Outcome::Ask {
                paused: Paused {
                    walk: self,
                    waiting: Waiting::Dependency { requirement, slot, position },
                },
            }
        } else {
            self.pop()
        }
    }
}

impl Paused {
    /// The question waited on refers to things that exist.
    pub open spec fn sound(self) -> bool {
        match self.waiting {
            Waiting::Seeding { root } => 0 <= root < self.walk.roots.len(),
            Waiting::Source { requirement, slot } => self.walk.holds(slot),
            Waiting::Constraint { requirement, slot, position } => {
                &&& self.walk.holds(slot)
                &&& 0 <= position < self.walk.registered(slot).len()
                &&& self.walk.registered(slot)[position] < self.walk.constraints.len()
            },
            Waiting::Dependency { requirement, slot, position } => {
                &&& self.walk.holds(slot)
                &&& self.walk.slots[slot as int].unwrap().metadata is Some
                &&& 0 <= position
                    < self.walk.slots[slot as int].unwrap().metadata.unwrap().requires_dist.len()
            },
        }
    }

    /// The question the walk is stopped at.
    pub open spec fn question(self) -> QuestionView {
        match self.waiting {
            Waiting::Seeding { root } => QuestionView::Applies {
                requirement: self.walk.roots[root],
                extras: Seq::empty(),
            },
            Waiting::Source { requirement, slot } => QuestionView::Matches {
                distribution: slot,
                requirement,
            },
            Waiting::Constraint { requirement, slot, position } => QuestionView::Matches {
                distribution: slot,
                requirement: self.walk.constraints[self.walk.registered(slot)[position] as int],
            },
            Waiting::Dependency { requirement, slot, position } => QuestionView::Applies {
                requirement: self.walk.slots[slot as int].unwrap().metadata.unwrap().requires_dist[position].requirement(),
                extras: requirement.extras,
            },
        }
    }

    /// Where the walk goes when the question is answered with `yes` or with
    /// a no.
    ///
    /// A given requirement that applies is taken up; after the last of them
    /// the visits begin. A candidate that does not come from the demanded
    /// source, or fails a constraint, ends the walk: the requirement being
    /// visited is not satisfied. A dependency that applies is taken up.
    pub open spec fn next(self, yes: bool) -> Outcome {
        match self.waiting {
            Waiting::Seeding { root } => {
                let walk = if yes {
                    self.walk.enqueue(self.walk.roots[root])
                } else {
                    self.walk
                };
                if root + 1 < walk.roots.len() {
                    Outcome::Ask {
                        paused: Paused { walk, waiting: Waiting::Seeding { root: root + 1 } },
                    }
                } else {
                    walk.pop()
                }
            },
            Waiting::Source { requirement, slot } => if yes {
                self.walk.constrain(requirement, slot, 0)
            } else {
                Outcome::Done(Verdict::Unsatisfied(requirement.text))
            },
            Waiting::Constraint { requirement, slot, position } => if yes {
                self.walk.constrain(requirement, slot, position + 1)
            } else {
                Outcome::Done(Verdict::Unsatisfied(requirement.text))
            },
            Waiting::Dependency { requirement, slot, position } => {
                let dependency =
                    self.walk.slots[slot as int].unwrap().metadata.unwrap().requires_dist[position];
                let walk = if yes {
                    self.walk.enqueue(dependency.requirement())
                } else {
                    self.walk
                };
                walk.expand(requirement, slot, position + 1)
            },
        }
    }
}

/// How a walk over `slots` begins: with the first given requirement, or, when
/// none is given, with nothing to visit.
pub open spec fn begin(
    slots: Seq<Option<DistView>>,
    roots: Seq<RequirementView>,
    constraints: Seq<RequirementView>,
) -> Outcome {
    let walk = Walk { slots, roots, constraints, stack: Seq::empty(), seen: Seq::empty() };
    if roots.len() > 0 {
        Outcome::Ask { paused: Paused { walk, waiting: Waiting::Seeding { root: 0 } } }
    } else {
        walk.pop()
    }
}

impl Walk {
    /// Nothing is listed twice, neither among the requirements seen nor on
    /// the stack, and whatever waits on the stack has been seen.
    pub open spec fn tidy(self) -> bool {
        &&& self.seen.no_duplicates()
        &&& self.stack.no_duplicates()
        &&& forall|i: int| 0 <= i < self.stack.len() ==> self.seen.contains(#[trigger] self.stack[i])
    }
}

/// A walk begins tidy.
pub proof fn law_begins_tidy(
    slots: Seq<Option<DistView>>,
    roots: Seq<RequirementView>,
    constraints: Seq<RequirementView>,
)
    ensures
        match begin(slots, roots, constraints) {
            Outcome::Ask { paused } => paused.walk.tidy() && paused.sound(),
            Outcome::Done(result) => roots.len() == 0 && result == Verdict::Fresh(Seq::empty()),
        },
{
}

/// Taking a requirement up keeps a walk tidy: a requirement is listed as
/// seen once, however often it is met.
pub proof fn lemma_enqueue_tidy(walk: Walk, requirement: RequirementView)
    requires
        walk.tidy(),
    ensures
        walk.enqueue(requirement).tidy(),
        walk.enqueue(requirement).seen.contains(requirement),
{
    let after = walk.enqueue(requirement);
    if !walk.seen.contains(requirement) {
        assert(after.seen.last() == requirement);
        assert forall|i: int| 0 <= i < after.stack.len() implies after.seen.contains(
            #[trigger] after.stack[i],
        ) by {
            if i < walk.stack.len() {
                let k = choose|k: int| 0 <= k < walk.seen.len() && walk.seen[k] == walk.stack[i];
                assert(after.seen[k] == after.stack[i]);
            } else {
                assert(after.seen[walk.seen.len() as int] == requirement);
            }
        }
        assert forall|i: int, j: int|
            0 <= i < after.stack.len() && 0 <= j < after.stack.len() && i != j implies after.stack[i]
            != after.stack[j] by {
            if i < walk.stack.len() && j < walk.stack.len() {
            } else if i < walk.stack.len() {
                assert(walk.seen.contains(walk.stack[i]));
            } else {
                assert(walk.seen.contains(walk.stack[j]));
            }
        }
    }
}

/// Every step keeps a walk tidy and its question sound. So no requirement is
/// visited twice, and a walk that ends well lists each requirement once.
pub proof fn law_stays_tidy(paused: Paused, yes: bool)
    requires
        paused.walk.slots.len() <= usize::MAX,
        paused.walk.constraints.len() <= usize::MAX,
        paused.walk.tidy(),
        paused.sound(),
    ensures
        match paused.next(yes) {
            Outcome::Ask { paused: after } => {
                &&& after.walk.tidy()
                &&& after.sound()
                &&& after.walk.slots == paused.walk.slots
                &&& after.walk.roots == paused.walk.roots
                &&& after.walk.constraints == paused.walk.constraints
            },
            Outcome::Done(Verdict::Fresh(seen)) => seen.no_duplicates(),
            Outcome::Done(_) => true,
        },
{
    let walk = paused.walk;
    match paused.waiting {
        Waiting::Seeding { root } => {
            lemma_enqueue_tidy(walk, walk.roots[root]);
            let after = if yes {
                walk.enqueue(walk.roots[root])
            } else {
                walk
            };
            if !(root + 1 < walk.roots.len()) {
                lemma_pop_tidy(after);
            }
        },
        Waiting::Source { requirement, slot } => {
            lemma_constrain_tidy(walk, requirement, slot, 0);
        },
        Waiting::Constraint { requirement, slot, position } => {
            lemma_constrain_tidy(walk, requirement, slot, position + 1);
        },
        Waiting::Dependency { requirement, slot, position } => {
            let dependency =
                walk.slots[slot as int].unwrap().metadata.unwrap().requires_dist[position];
            lemma_enqueue_tidy(walk, dependency.requirement());
            let after = if yes {
                walk.enqueue(dependency.requirement())
            } else {
                walk
            };
            lemma_expand_tidy(after, requirement, slot, position + 1);
        },
    }
}

/// Taking the next requirement off the stack keeps a walk tidy.
pub proof fn lemma_pop_tidy(walk: Walk)
    requires
        walk.slots.len() <= usize::MAX,
        walk.tidy(),
    ensures
        match walk.pop() {
            Outcome::Ask { paused } => {
                &&& paused.walk.tidy()
                &&& paused.sound()
                &&& paused.walk.slots == walk.slots
                &&& paused.walk.roots == walk.roots
                &&& paused.walk.constraints == walk.constraints
            },
            Outcome::Done(Verdict::Fresh(seen)) => seen.no_duplicates(),
            Outcome::Done(_) => true,
        },
{
    if walk.stack.len() > 0 {
        let requirement = walk.stack.last();
        let rest = Walk { stack: walk.stack.drop_last(), ..walk };
        assert forall|i: int| 0 <= i < rest.stack.len() implies rest.seen.contains(
            #[trigger] rest.stack[i],
        ) by {
            assert(rest.stack[i] == walk.stack[i]);
        }
        match requirement.target {
            TargetView::Name(name) => {
                lemma_positions_within(crate::installed_packages::name_labels(walk.slots), name);
            },
            TargetView::Url(url) => {
                lemma_positions_within(crate::installed_packages::url_labels(walk.slots), url);
            },
        }
    }
}

/// Going on to a constraint, or past the last, keeps a walk tidy.
pub proof fn lemma_constrain_tidy(
    walk: Walk,
    requirement: RequirementView,
    slot: usize,
    position: int,
)
    requires
        walk.slots.len() <= usize::MAX,
        walk.constraints.len() <= usize::MAX,
        walk.tidy(),
        walk.holds(slot),
        0 <= position,
    ensures
        match walk.constrain(requirement, slot, position) {
            Outcome::Ask { paused } => {
                &&& paused.walk.tidy()
                &&& paused.sound()
                &&& paused.walk.slots == walk.slots
                &&& paused.walk.roots == walk.roots
                &&& paused.walk.constraints == walk.constraints
            },
            Outcome::Done(Verdict::Fresh(seen)) => seen.no_duplicates(),
            Outcome::Done(_) => true,
        },
{
    lemma_positions_within(
        constraint_labels(walk.constraints),
        walk.slots[slot as int].unwrap().name,
    );
    if position >= walk.registered(slot).len() && walk.slots[slot as int].unwrap().metadata
        is Some {
        lemma_expand_tidy(walk, requirement, slot, 0);
    }
}

/// Going on to a dependency, or past the last, keeps a walk tidy.
pub proof fn lemma_expand_tidy(walk: Walk, requirement: RequirementView, slot: usize, position: int)
    requires
        walk.slots.len() <= usize::MAX,
        walk.tidy(),
        walk.holds(slot),
        walk.slots[slot as int].unwrap().metadata is Some,
        0 <= position,
    ensures
        match walk.expand(requirement, slot, position) {
            Outcome::Ask { paused } => {
                &&& paused.walk.tidy()
                &&& paused.sound()
                &&& paused.walk.slots == walk.slots
                &&& paused.walk.roots == walk.roots
                &&& paused.walk.constraints == walk.constraints
            },
            Outcome::Done(Verdict::Fresh(seen)) => seen.no_duplicates(),
            Outcome::Done(_) => true,
        },
{
    let dependencies = walk.slots[slot as int].unwrap().metadata.unwrap().requires_dist;
    if position >= dependencies.len() {
        lemma_pop_tidy(walk);
    }
}

/// A requirement that no installed distribution could meet is not satisfied:
/// asked for alone, once its markers are found to hold, the walk ends by
/// naming it.
pub proof fn law_missing_package(
    slots: Seq<Option<DistView>>,
    requirement: RequirementView,
    constraints: Seq<RequirementView>,
)
    requires
        (Walk {
            slots,
            roots: seq![requirement],
            constraints,
            stack: Seq::empty(),
            seen: Seq::empty(),
        }).candidates(requirement).len() == 0,
    ensures
        begin(slots, seq![requirement], constraints) matches Outcome::Ask { paused }
            && paused.question() == (QuestionView::Applies { requirement, extras: Seq::empty() })
            && paused.next(true) == Outcome::Done(Verdict::Unsatisfied(requirement.text)),
{
    let walk = Walk {
        slots,
        roots: seq![requirement],
        constraints,
        stack: Seq::empty(),
        seen: Seq::empty(),
    };
    let taken = walk.enqueue(requirement);
    assert(taken.stack.last() == requirement);
    assert(taken.stack.drop_last() =~= Seq::<RequirementView>::empty());
}

/// Whenever the requirement taken off the stack has no candidate, or more
/// than one, the walk ends there and names it.
pub proof fn law_ambiguous_or_missing(walk: Walk)
    requires
        walk.stack.len() > 0,
        walk.candidates(walk.stack.last()).len() != 1,
    ensures
        walk.pop() == Outcome::Done(Verdict::Unsatisfied(walk.stack.last().text)),
{
}

/// A candidate whose metadata cannot be read satisfies nothing. When it has
/// passed every constraint registered for its name, the walk ends there and
/// names the requirement being visited; it raises no error.
pub proof fn law_unreadable_metadata_unsatisfied(
    walk: Walk,
    requirement: RequirementView,
    slot: usize,
    position: int,
)
    requires
        walk.slots[slot as int].unwrap().metadata is None,
        position >= walk.registered(slot).len(),
    ensures
        walk.constrain(requirement, slot, position) == Outcome::Done(
            Verdict::Unsatisfied(requirement.text),
        ),
        walk.registered(slot).len() == 0 ==> (Paused {
            walk,
            waiting: Waiting::Source { requirement, slot },
        }).next(true) == Outcome::Done(Verdict::Unsatisfied(requirement.text)),
{
}

/// A constraint can veto a candidate that its own requirement accepts. When
/// the candidate comes from the source the requirement demands and a
/// constraint is registered for its name, the first such constraint is asked
/// about next; and a candidate that fails a constraint ends the walk, which
/// names the requirement being visited.
pub proof fn law_constraint_vetoes(walk: Walk, requirement: RequirementView, slot: usize)
    requires
        walk.registered(slot).len() > 0,
    ensures
        (Paused { walk, waiting: Waiting::Source { requirement, slot } }).next(true) == (
        Outcome::Ask {
            paused: Paused { walk, waiting: Waiting::Constraint { requirement, slot, position: 0 } },
        }),
        (Paused {
            walk,
            waiting: Waiting::Constraint { requirement, slot, position: 0 },
        }).question() == (QuestionView::Matches {
            distribution: slot,
            requirement: walk.constraints[walk.registered(slot)[0] as int],
        }),
        forall|position: int|
            (#[trigger] (Paused {
                walk,
                waiting: Waiting::Constraint { requirement, slot, position },
            }).next(false)) == Outcome::Done(Verdict::Unsatisfied(requirement.text)),
{
}

/// What a walk rests on and never changes: the index, the requirements and
/// constraints given, and the constraints filed by package name.
struct Ground<'a> {
    packages: &'a InstalledPackages,
    roots: Vec<Requirement>,
    constraints: Vec<Requirement>,
    by_name: Index,
}

impl<'a> Ground<'a> {
    /// The index is well formed and the constraints are filed under their
    /// names.
    spec fn wf(self) -> bool {
        &&& self.packages.wf()
        &&& catalogues(entries(self.by_name), constraint_labels(self.constraints.deep_view()))
    }

    /// The walk that rests on this ground, with the given stack and list of
    /// requirements seen.
    spec fn walk(self, stack: Seq<RequirementView>, seen: Seq<RequirementView>) -> Walk {
        Walk {
            slots: self.packages@,
            roots: self.roots.deep_view(),
            constraints: self.constraints.deep_view(),
            stack,
            seen,
        }
    }
}

/// For each requirement, the text it is filed under.
pub open spec fn text_labels(requirements: Seq<RequirementView>) -> Seq<Option<Seq<char>>> {
    Seq::new(requirements.len(), |i: int| Some(requirements[i].text))
}

/// The requirements seen, in the order met, with a hash index that files
/// each under its text, so that a requirement met again is found without
/// going through the list.
struct Seen {
    list: Vec<Requirement>,
    by_text: Index,
}

impl DeepView for Seen {
    type V = Seq<RequirementView>;

    closed spec fn deep_view(&self) -> Seq<RequirementView> {
        self.list.deep_view()
    }
}

impl Seen {
    /// The index files each requirement of the list under its text.
    spec fn wf(self) -> bool {
        catalogues(entries(self.by_text), text_labels(self.list.deep_view()))
    }

    /// Nothing seen yet.
    fn new() -> (seen: Seen)
        ensures
            seen.wf(),
            seen.deep_view() == Seq::<RequirementView>::empty(),
    {
        let seen = Seen { list: Vec::new(), by_text: index_new() };
        proof {
            assert(seen.list.deep_view() =~= Seq::<RequirementView>::empty());
        }
        seen
    }

    /// Whether `requirement` has been seen.
    fn contains(&self, requirement: &Requirement) -> (found: bool)
        requires
            self.wf(),
        ensures
            found == self.deep_view().contains(requirement@),
    {
        let ghost labels = text_labels(self.list.deep_view());
        proof {
            assert(labels.len() == self.list.len());
            lemma_positions_within(labels, requirement.text@);
            assert(crate::index::filed(entries(self.by_text), requirement.text@) == positions(
                labels,
                requirement.text@,
            ));
        }
        let listed = match index_get(&self.by_text, requirement.text.as_str()) {
            Some(listed) => listed,
            None => {
                proof {
                    assert forall|i: int| 0 <= i < self.list.len() implies self.list.deep_view()[i]
                        != requirement@ by {
                        if self.list.deep_view()[i] == requirement@ {
                            lemma_positions_complete(labels, requirement.text@, i);
                        }
                    }
                }
                return false;
            },
        };
        let mut k: usize = 0;
        while k < listed.len()
            invariant
                k <= listed.len(),
                labels == text_labels(self.list.deep_view()),
                labels.len() == self.list.len(),
                listed@ == positions(labels, requirement.text@),
                forall|j: int| 0 <= j < listed.len() ==> listed[j] < self.list.len(),
                forall|j: int| 0 <= j < k ==> self.list[listed[j] as int]@ != requirement@,
            decreases listed.len() - k,
        {
            if self.list[listed[k]].same(requirement) {
                proof {
                    assert(self.list.deep_view()[listed[k as int] as int] == requirement@);
                }
                return true;
            }
            k += 1;
        }
        proof {
            assert forall|i: int| 0 <= i < self.list.len() implies self.list.deep_view()[i]
                != requirement@ by {
                if self.list.deep_view()[i] == requirement@ {
                    lemma_positions_complete(labels, requirement.text@, i);
                    let j = choose|j: int| 0 <= j < listed.len() && listed[j] == i as usize;
                    assert(self.list[listed[j] as int]@ != requirement@);
                }
            }
        }
        false
    }

    /// Lists one more requirement as seen.
    fn push(&mut self, requirement: Requirement)
        requires
            old(self).wf(),
        ensures
            final(self).wf(),
            final(self).deep_view() == old(self).deep_view().push(requirement@),
    {
        let ghost before = self.list.deep_view();
        proof {
            lemma_catalogues_next(
                entries(self.by_text),
                text_labels(before),
                Some(requirement.text@),
            );
        }
        let position = self.list.len();
        index_append(&mut self.by_text, requirement.text.clone(), position);
        self.list.push(requirement);
        proof {
            assert(self.list.deep_view() =~= before.push(requirement@));
            assert(text_labels(self.list.deep_view()) =~= text_labels(before).push(
                Some(requirement.text@),
            ));
        }
    }
}

/// The question a walk is waiting on.
enum Stage {
    Seeding { root: usize },
    Source { requirement: Requirement, slot: usize },
    Constraint { requirement: Requirement, slot: usize, position: usize },
    Dependency { requirement: Requirement, slot: usize, position: usize },
}

impl DeepView for Stage {
    type V = Waiting;

    closed spec fn deep_view(&self) -> Waiting {
        match self {
            Stage::Seeding { root } => Waiting::Seeding { root: *root as int },
            Stage::Source { requirement, slot } => Waiting::Source {
                requirement: requirement@,
                slot: *slot,
            },
            Stage::Constraint { requirement, slot, position } => Waiting::Constraint {
                requirement: requirement@,
                slot: *slot,
                position: *position as int,
            },
            Stage::Dependency { requirement, slot, position } => Waiting::Dependency {
                requirement: requirement@,
                slot: *slot,
                position: *position as int,
            },
        }
    }
}

/// A walk stopped at a question. [`Traversal::resume`] takes it further.
pub struct Traversal<'a> {
    ground: Ground<'a>,
    stack: Vec<Requirement>,
    seen: Seen,
    stage: Stage,
}

impl<'a> View for Traversal<'a> {
    type V = Paused;

    closed spec fn view(&self) -> Paused {
        Paused {
            walk: self.ground.walk(self.stack.deep_view(), self.seen.deep_view()),
            waiting: self.stage.deep_view(),
        }
    }
}

/// One step of a walk.
pub type SatisfiesStep<'a> = Step<Traversal<'a>, SatisfiesResult>;

/// What a step of the walk led to.
pub open spec fn outcome_of(step: SatisfiesStep) -> Outcome {
    match step {
        Step::Ask { pending, question } => Outcome::Ask { paused: pending@ },
        Step::Done(ending) => Outcome::Done(ending@),
    }
}

/// A step that stops hands out the question its walk is stopped at, the
/// question refers to things that exist, and the walk is orderly.
pub open spec fn asks(step: SatisfiesStep) -> bool {
    match step {
        Step::Ask { pending, question } => {
            &&& pending@.walk.orderly()
            &&& pending@.sound()
            &&& question@ == pending@.question()
        },
        Step::Done(_) => true,
    }
}

/// Notes `requirement` as met and puts it up for a visit, unless it was met
/// before.
fn enqueue(stack: &mut Vec<Requirement>, seen: &mut Seen, requirement: Requirement)
    requires
        old(seen).wf(),
    ensures
        final(seen).wf(),
        final(seen).deep_view() == if old(seen).deep_view().contains(requirement@) {
            old(seen).deep_view()
        } else {
            old(seen).deep_view().push(requirement@)
        },
        final(stack).deep_view() == if old(seen).deep_view().contains(requirement@) {
            old(stack).deep_view()
        } else {
            old(stack).deep_view().push(requirement@)
        },
{
    if !seen.contains(&requirement) {
        seen.push(requirement.copy());
        stack.push(requirement);
        proof {
            assert(stack.deep_view() =~= old(stack).deep_view().push(requirement@));
        }
    }
}

/// Stops the walk at the question of `stage`.
fn ask<'a>(ground: Ground<'a>, stack: Vec<Requirement>, seen: Seen, stage: Stage) -> (step:
    SatisfiesStep<'a>)
    requires
        ground.wf(),
        seen.wf(),
        ground.walk(stack.deep_view(), seen.deep_view()).orderly(),
        (Paused {
            walk: ground.walk(stack.deep_view(), seen.deep_view()),
            waiting: stage.deep_view(),
        }).sound(),
    ensures
        asks(step),
        outcome_of(step) == (Outcome::Ask {
            paused: Paused {
                walk: ground.walk(stack.deep_view(), seen.deep_view()),
                waiting: stage.deep_view(),
            },
        }),
{
    let packages = ground.packages;
    let question = match &stage {
        Stage::Seeding { root } => {
            let extras: Vec<String> = Vec::new();
            proof {
                assert(extras.deep_view() =~= Seq::<Seq<char>>::empty());
            }
            Question::Applies { requirement: ground.roots[*root].copy(), extras }
        },
        Stage::Source { requirement, slot } => Question::Matches {
            distribution: *slot,
            requirement: requirement.copy(),
        },
        Stage::Constraint { requirement, slot, position } => {
            let dist = packages.get(*slot).unwrap();
            proof {
                assert(crate::index::filed(entries(ground.by_name), dist.name@) == positions(
                    constraint_labels(ground.constraints.deep_view()),
                    dist.name@,
                ));
            }
            let listed = index_get(&ground.by_name, dist.name.as_str()).unwrap();
            Question::Matches {
                distribution: *slot,
                requirement: ground.constraints[listed[*position]].copy(),
            }
        },
        Stage::Dependency { requirement, slot, position } => {
            let dist = packages.get(*slot).unwrap();
            let metadata = dist.metadata.as_ref().unwrap();
            Question::Applies {
                requirement: metadata.requires_dist[*position].requirement(),
                extras: copy_texts(&requirement.extras),
            }
        },
    };
    let pending = Traversal { ground, stack, seen, stage };
    Step::Ask { pending, question }
}

/// Takes the next requirement off the stack and looks up its candidates.
fn pop<'a>(ground: Ground<'a>, stack: Vec<Requirement>, seen: Seen) -> (step:
    SatisfiesStep<'a>)
    requires
        ground.wf(),
        seen.wf(),
        goes_on_orderly(ground.walk(stack.deep_view(), seen.deep_view()).pop()),
    ensures
        asks(step),
        outcome_of(step) == ground.walk(stack.deep_view(), seen.deep_view()).pop(),
{
    let mut stack = stack;
    let ghost before = stack.deep_view();
    match stack.pop() {
        None => Step::Done(SatisfiesResult::Fresh { recursive_requirements: seen.list }),
        Some(requirement) => {
            proof {
                assert(stack.deep_view() =~= before.drop_last());
                assert(requirement@ == before.last());
            }
            let candidates = match &requirement.target {
                Target::Name(name) => ground.packages.named_slots(name.as_str()),
                Target::Url(url) => ground.packages.sourced_slots(url.as_str()),
            };
            if candidates.len() == 1 {
                let slot = candidates[0];
                ask(ground, stack, seen, Stage::Source { requirement, slot })
            } else {
                Step::Done(SatisfiesResult::Unsatisfied(requirement.text))
            }
        },
    }
}

/// Goes on to the dependency at `position` of the candidate in `slot`.
fn expand<'a>(
    ground: Ground<'a>,
    stack: Vec<Requirement>,
    seen: Seen,
    requirement: Requirement,
    slot: usize,
    position: usize,
) -> (step: SatisfiesStep<'a>)
    requires
        ground.wf(),
        seen.wf(),
        ground.walk(stack.deep_view(), seen.deep_view()).holds(slot),
        ground.packages@[slot as int].unwrap().metadata is Some,
        goes_on_orderly(
            ground.walk(stack.deep_view(), seen.deep_view()).expand(
                requirement@,
                slot,
                position as int,
            ),
        ),
    ensures
        asks(step),
        outcome_of(step) == ground.walk(stack.deep_view(), seen.deep_view()).expand(
            requirement@,
            slot,
            position as int,
        ),
{
    let packages = ground.packages;
    let dist = packages.get(slot).unwrap();
    let metadata = dist.metadata.as_ref().unwrap();
    if position < metadata.requires_dist.len() {
        ask(ground, stack, seen, Stage::Dependency { requirement, slot, position })
    } else {
        pop(ground, stack, seen)
    }
}

/// Goes on to the constraint at `position` among those registered for the
/// name of the candidate in `slot`.
fn constrain<'a>(
    ground: Ground<'a>,
    stack: Vec<Requirement>,
    seen: Seen,
    requirement: Requirement,
    slot: usize,
    position: usize,
) -> (step: SatisfiesStep<'a>)
    requires
        ground.wf(),
        seen.wf(),
        ground.walk(stack.deep_view(), seen.deep_view()).holds(slot),
        goes_on_orderly(
            ground.walk(stack.deep_view(), seen.deep_view()).constrain(
                requirement@,
                slot,
                position as int,
            ),
        ),
    ensures
        asks(step),
        outcome_of(step) == ground.walk(stack.deep_view(), seen.deep_view()).constrain(
            requirement@,
            slot,
            position as int,
        ),
{
    let packages = ground.packages;
    let dist = packages.get(slot).unwrap();
    let registered = match index_get(&ground.by_name, dist.name.as_str()) {
        Some(listed) => listed.len(),
        None => 0,
    };
    proof {
        assert(ground.constraints.deep_view().len() == ground.constraints.len());
        lemma_positions_within(constraint_labels(ground.constraints.deep_view()), dist.name@);
        assert(crate::index::filed(entries(ground.by_name), dist.name@) == positions(
            constraint_labels(ground.constraints.deep_view()),
            dist.name@,
        ));
    }
    if position < registered {
        ask(ground, stack, seen, Stage::Constraint { requirement, slot, position })
    } else if dist.metadata.is_none() {
        Step::Done(SatisfiesResult::Unsatisfied(requirement.text))
    } else {
        expand(ground, stack, seen, requirement, slot, 0)
    }
}

impl<'a> Traversal<'a> {
    /// The walk rests on well-formed ground, is orderly and waits on a
    /// question about things that exist.
    #[verifier::type_invariant]
    closed spec fn inv(self) -> bool {
        self.ground.wf() && self.seen.wf() && self@.walk.orderly() && self@.sound()
    }

    /// Takes the walk further with the answer to the question it stopped at.
    ///
    /// An answer of the other kind than the question calls for is read as a
    /// yes or a no all the same: see [`Answer::affirms`].
    pub fn resume(self, answer: Answer) -> (step: SatisfiesStep<'a>)
        ensures
            asks(step),
            outcome_of(step) == self@.next(answer.affirms()),
    {
        let yes = answer.is_affirmative();
        proof {
            use_type_invariant(&self);
            lemma_step_shortens(self@, yes);
        }
        let Traversal { ground, stack, seen, stage } = self;
        proof {
            assert(ground.roots.deep_view().len() == ground.roots.len());
        }
        let mut stack = stack;
        let mut seen = seen;
        match stage {
            Stage::Seeding { root } => {
                if yes {
                    enqueue(&mut stack, &mut seen, ground.roots[root].copy());
                }
                if root + 1 < ground.roots.len() {
                    ask(ground, stack, seen, Stage::Seeding { root: root + 1 })
                } else {
                    pop(ground, stack, seen)
                }
            },
            Stage::Source { requirement, slot } => {
                if yes {
                    constrain(ground, stack, seen, requirement, slot, 0)
                } else {
                    Step::Done(SatisfiesResult::Unsatisfied(requirement.text))
                }
            },
            Stage::Constraint { requirement, slot, position } => {
                proof {
                    let walk = ground.walk(stack.deep_view(), seen.deep_view());
                    crate::index::lemma_positions_count(
                        constraint_labels(walk.constraints),
                        walk.slots[slot as int].unwrap().name,
                    );
                    assert(ground.constraints.deep_view().len() == ground.constraints.len());
                }
                if yes {
                    constrain(ground, stack, seen, requirement, slot, position + 1)
                } else {
                    Step::Done(SatisfiesResult::Unsatisfied(requirement.text))
                }
            },
            Stage::Dependency { requirement, slot, position } => {
                let packages = ground.packages;
                let dist = packages.get(slot).unwrap();
                let metadata = dist.metadata.as_ref().unwrap();
                proof {
                    assert(metadata.requires_dist.deep_view().len()
                        == metadata.requires_dist.len());
                }
                if yes {
                    enqueue(
                        &mut stack,
                        &mut seen,
                        metadata.requires_dist[position].requirement(),
                    );
                }
                expand(ground, stack, seen, requirement, slot, position + 1)
            },
        }
    }
}

impl InstalledPackages {
    /// Begins the walk that decides whether what is installed satisfies
    /// `requirements` under `constraints`.
    ///
    /// A constraint restricts every installed distribution of its name,
    /// whatever the requirement that led to the distribution says.
    pub fn satisfies<'a>(
        &'a self,
        requirements: Vec<Requirement>,
        constraints: Vec<Requirement>,
    ) -> (step: SatisfiesStep<'a>)
        requires
            self.wf(),
        ensures
            asks(step),
            outcome_of(step) == begin(self@, requirements.deep_view(), constraints.deep_view()),
    {
        let mut by_name = index_new();
        let ghost labels = constraint_labels(constraints.deep_view());
        let mut i: usize = 0;
        while i < constraints.len()
            invariant
                i <= constraints.len(),
                labels == constraint_labels(constraints.deep_view()),
                catalogues(entries(by_name), labels.take(i as int)),
            decreases constraints.len() - i,
        {
            proof {
                lemma_catalogues_next(entries(by_name), labels.take(i as int), labels[i as int]);
                assert(labels.take(i as int).push(labels[i as int]) =~= labels.take(i + 1));
            }
            match &constraints[i].target {
                Target::Name(name) => {
                    index_append(&mut by_name, name.clone(), i);
                },
                Target::Url(_) => {},
            }
            i += 1;
        }
        proof {
            assert(labels.take(i as int) =~= labels);
        }
        let ground = Ground { packages: self, roots: requirements, constraints, by_name };
        let stack: Vec<Requirement> = Vec::new();
        let seen = Seen::new();
        proof {
            assert(stack.deep_view() =~= Seq::<RequirementView>::empty());
            ground.packages.lemma_slots_countable();
            assert(ground.constraints.deep_view().len() == ground.constraints.len());
            lemma_pop_steps(ground.walk(stack.deep_view(), seen.deep_view()));
        }
        if ground.roots.len() > 0 {
            ask(ground, stack, seen, Stage::Seeding { root: 0 })
        } else {
            pop(ground, stack, seen)
        }
    }
}

/// What taking a walk from `start` to its end with the answers of `answer`
/// comes to. A verdict is where the oracle that `answer` stands for leads
/// the walk. A failure is one that `answer` gave to a question at which the
/// walk, led that far by the same oracle, stood. So a walk that asks
/// nothing, or whose every question is answered, comes to its verdict.
pub open spec fn concluded<E, F: Fn(&Question) -> Result<Answer, E>>(
    start: Outcome,
    answer: F,
    verdict: Result<SatisfiesResult, E>,
) -> bool {
    match verdict {
        Ok(ending) => exists|fuel: nat|
            run(start, oracle_of(answer), fuel) == Some(ending@),
        Err(failure) => exists|question: Question, steps: nat|
            #![trigger answer.ensures((&question,), Err::<Answer, E>(failure)), after(start, oracle_of(answer), steps)]
            {
                &&& after(start, oracle_of(answer), steps) matches Outcome::Ask { paused }
                    && question@ == paused.question()
                &&& answer.ensures((&question,), Err::<Answer, E>(failure))
            },
    }
}

/// Takes a walk to its end, getting the answer to each of its questions
/// from `answer`.
///
/// When `answer` fails at a question of the walk, the walk is given up and
/// the failure handed back. Otherwise the walk ends where the oracle that
/// `answer` stands for leads it, and it does end. A walk that has ended
/// already is not asked anything.
pub fn conclude<'a, E, F>(step: SatisfiesStep<'a>, answer: F) -> (verdict: Result<
    SatisfiesResult,
    E,
>) where F: Fn(&Question) -> Result<Answer, E>
    requires
        asks(step),
        forall|question: &Question| #[trigger] answer.requires((question,)),
        steady(answer),
    ensures
        concluded(outcome_of(step), answer, verdict),
        outcome_of(step) matches Outcome::Done(result) ==> (verdict matches Ok(ending) && ending@
            == result),
{
    let ghost oracle = oracle_of(answer);
    let ghost start = outcome_of(step);
    let ghost mut taken: nat = 0;
    let mut current = step;
    loop
        invariant
            asks(current),
            oracle == oracle_of(answer),
            start == outcome_of(step),
            steady(answer),
            forall|question: &Question| #[trigger] answer.requires((question,)),
            forall|fuel: nat|
                run(outcome_of(current), oracle, fuel) is Some ==> #[trigger] run(
                    start,
                    oracle,
                    fuel + taken,
                ) == run(outcome_of(current), oracle, fuel),
            after(start, oracle, taken) == outcome_of(current),
            start is Done ==> taken == 0,
        decreases steps_left(outcome_of(current)),
    {
        match current {
            Step::Done(ending) => {
                proof {
                    assert(run(outcome_of(Step::<Traversal<'a>, _>::Done(ending)), oracle, 0)
                        == Some(ending@));
                    assert(run(start, oracle, 0 + taken) == Some(ending@));
                }
                return Ok(ending);
            },
            Step::Ask { pending, question } => {
                let reply = match answer(&question) {
                    Ok(reply) => reply,
                    Err(failure) => {
                        let verdict = Err(failure);
                        proof {
                            assert(answer.ensures((&question,), Err::<Answer, E>(failure)));
                            assert(verdict matches Err(failed) && failed == failure);
                            assert(after(start, oracle_of(answer), taken) matches Outcome::Ask {
                                paused,
                            } && question@ == paused.question());
                        }
                        return verdict;
                    },
                };
                let ghost paused = pending@;
                let ghost before = Outcome::Ask { paused };
                proof {
                    assert(oracle(paused.question()) == reply.affirms());
                    lemma_step_shortens(paused, reply.affirms());
                    lemma_after_next(start, oracle, taken);
                }
                current = pending.resume(reply);
                proof {
                    assert forall|fuel: nat|
                        run(outcome_of(current), oracle, fuel) is Some implies #[trigger] run(
                        start,
                        oracle,
                        fuel + (taken + 1),
                    ) == run(outcome_of(current), oracle, fuel) by {
                        assert(run(before, oracle, fuel + 1) == run(
                            outcome_of(current),
                            oracle,
                            fuel,
                        ));
                        assert(run(start, oracle, (fuel + 1) + taken) == run(
                            before,
                            oracle,
                            fuel + 1,
                        ));
                        assert((fuel + 1) + taken == fuel + (taken + 1));
                    }
                    taken = taken + 1;
                }
            },
        }
    }
}

impl InstalledPackages {
    /// Decides whether what is installed satisfies `requirements` under
    /// `constraints`, getting the answer to each question from `answer`.
    ///
    /// When `answer` fails at a question of the walk, the failure is handed
    /// back; with no requirement given nothing is asked and the verdict is
    /// fresh. Otherwise the verdict
    /// is the one the oracle that `answer` stands for leads to, and it means
    /// what [`upheld`] says: a fresh verdict lists exactly the requirements
    /// reached from the given ones, each satisfied; an unsatisfied verdict
    /// names a requirement that was reached and is not.
    pub fn satisfies_with<E, F>(
        &self,
        requirements: Vec<Requirement>,
        constraints: Vec<Requirement>,
        answer: F,
    ) -> (verdict: Result<SatisfiesResult, E>) where
        F: Fn(&Question) -> Result<Answer, E>,

        requires
            self.wf(),
            forall|question: &Question| #[trigger] answer.requires((question,)),
            steady(answer),
        ensures
            concluded(
                begin(self@, requirements.deep_view(), constraints.deep_view()),
                answer,
                verdict,
            ),
            verdict matches Ok(ending) ==> upheld(
                Walk {
                    slots: self@,
                    roots: requirements.deep_view(),
                    constraints: constraints.deep_view(),
                    stack: Seq::empty(),
                    seen: Seq::empty(),
                },
                Outcome::Done(ending@),
                oracle_of(answer),
            ),
            requirements.len() == 0 ==> (verdict matches Ok(ending) && ending@ == Verdict::Fresh(
                Seq::empty(),
            )),
    {
        let ghost roots = requirements.deep_view();
        let ghost limits = constraints.deep_view();
        proof {
            self.lemma_slots_countable();
            assert(limits.len() == constraints.len());
            assert(roots.len() == requirements.len());
        }
        let verdict = conclude(self.satisfies(requirements, constraints), answer);
        proof {
            if verdict is Ok {
                let ending = verdict->Ok_0;
                let fuel = choose|fuel: nat|
                    run(begin(self@, roots, limits), oracle_of(answer), fuel) == Some(
                        ending@,
                    );
                theorem_verdict(self@, roots, limits, oracle_of(answer), fuel);
            }
        }
        verdict
    }
}

} // verus!
