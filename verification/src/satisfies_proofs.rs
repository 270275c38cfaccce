//! What the verdict of a finished walk means.
//!
//! A walk is a sequence of steps, each taken with the answer to a question.
//! Here the answers come from an oracle, a function from questions to yes or
//! no, and the walk is run until it ends. The theorems say what holds of the
//! verdict whatever the oracle is: a walk that ends fresh has seen exactly
//! the requirements that can be reached from the given ones, and each of
//! them is satisfied; a walk that ends unsatisfied names a requirement that
//! was reached and is not. A distribution whose metadata cannot be read
//! satisfies nothing. Every walk ends, and no requirement is visited twice.
use crate::distribution::DependencyView;
use crate::distribution::DistView;
use crate::index::lemma_positions_within;
use crate::installed_packages::name_labels;
use crate::installed_packages::url_labels;
use crate::query::QuestionView;
use crate::requirement::RequirementView;
use crate::requirement::TargetView;
use crate::satisfies::begin;
use crate::satisfies::constraint_labels;
use crate::satisfies::law_stays_tidy;
use crate::satisfies::lemma_enqueue_tidy;
use crate::satisfies::Outcome;
use crate::satisfies::Paused;
use crate::satisfies::Verdict;
use crate::satisfies::Waiting;
use crate::satisfies::Walk;
use vstd::prelude::*;

verus! {

/// Where a walk ends when every question is answered by `oracle`, if it ends
/// within `fuel` steps.
pub open spec fn run(outcome: Outcome, oracle: spec_fn(QuestionView) -> bool, fuel: nat) -> Option<
    Verdict,
>
    decreases fuel,
{
    match outcome {
        Outcome::Done(result) => Some(result),
        Outcome::Ask { paused } => if fuel == 0 {
            None
        } else {
            run(paused.next(oracle(paused.question())), oracle, (fuel - 1) as nat)
        },
    }
}

/// Where a walk stands after `steps` steps, every question answered by
/// `oracle`. A walk that has ended stays where it ended.
pub open spec fn after(outcome: Outcome, oracle: spec_fn(QuestionView) -> bool, steps: nat) -> Outcome
    decreases steps,
{
    match outcome {
        Outcome::Done(_) => outcome,
        Outcome::Ask { paused } => if steps == 0 {
            outcome
        } else {
            after(paused.next(oracle(paused.question())), oracle, (steps - 1) as nat)
        },
    }
}

/// One step more leads where the question the walk stands at, answered by
/// the oracle, leads.
pub proof fn lemma_after_next(outcome: Outcome, oracle: spec_fn(QuestionView) -> bool, steps: nat)
    ensures
        after(outcome, oracle, steps) matches Outcome::Ask { paused } ==> after(
            outcome,
            oracle,
            steps + 1,
        ) == paused.next(oracle(paused.question())),
    decreases steps,
{
    if let Outcome::Ask { paused } = outcome {
        let next = paused.next(oracle(paused.question()));
        if steps == 0 {
            assert(after(next, oracle, 0) == next);
        } else {
            lemma_after_next(next, oracle, (steps - 1) as nat);
        }
    }
}

impl Walk {
    /// The declared dependencies of the distribution in `slot`.
    pub open spec fn dependencies(self, slot: usize) -> Seq<DependencyView> {
        self.slots[slot as int].unwrap().metadata.unwrap().requires_dist
    }

    /// The distribution in `slot` comes from the source that `requirement`
    /// demands and meets the first `upto` constraints registered for its
    /// name.
    pub open spec fn accepted(
        self,
        oracle: spec_fn(QuestionView) -> bool,
        requirement: RequirementView,
        slot: usize,
        upto: int,
    ) -> bool {
        &&& oracle(QuestionView::Matches { distribution: slot, requirement })
        &&& forall|k: int|
            0 <= k < upto ==> oracle(
                QuestionView::Matches {
                    distribution: slot,
                    requirement: #[trigger] self.constraints[self.registered(slot)[k] as int],
                },
            )
    }

    /// Dependency number `number` of the distribution in `slot` applies when
    /// the extras of `requirement` are active.
    pub open spec fn wants(
        self,
        oracle: spec_fn(QuestionView) -> bool,
        requirement: RequirementView,
        slot: usize,
        number: int,
    ) -> bool {
        oracle(
            QuestionView::Applies {
                requirement: self.dependencies(slot)[number].requirement(),
                extras: requirement.extras,
            },
        )
    }

    /// Each of the first `upto` dependencies of the distribution in `slot`
    /// that applies has been seen.
    pub open spec fn followed(
        self,
        oracle: spec_fn(QuestionView) -> bool,
        requirement: RequirementView,
        slot: usize,
        upto: int,
    ) -> bool {
        forall|k: int|
            0 <= k < upto && #[trigger] self.wants(oracle, requirement, slot, k)
                ==> self.seen.contains(self.dependencies(slot)[k].requirement())
    }

    /// The requirement is satisfied: exactly one installed distribution could
    /// meet it, that one comes from the demanded source and meets every
    /// constraint registered for its name, its metadata can be read, and
    /// each of its dependencies that applies has been seen.
    pub open spec fn settled(
        self,
        oracle: spec_fn(QuestionView) -> bool,
        requirement: RequirementView,
    ) -> bool {
        let found = self.candidates(requirement);
        &&& found.len() == 1
        &&& self.holds(found[0])
        &&& self.accepted(oracle, requirement, found[0], self.registered(found[0]).len() as int)
        &&& self.slots[found[0] as int].unwrap().metadata is Some
        &&& self.followed(
            oracle,
            requirement,
            found[0],
            self.dependencies(found[0]).len() as int,
        )
    }

    /// The requirement is not satisfied: no installed distribution could
    /// meet it, or more than one, or the one that could comes from another
    /// source, fails a constraint registered for its name, or has metadata
    /// that cannot be read.
    pub open spec fn failed(
        self,
        oracle: spec_fn(QuestionView) -> bool,
        requirement: RequirementView,
    ) -> bool {
        let found = self.candidates(requirement);
        ||| found.len() != 1
        ||| !self.accepted(
            oracle,
            requirement,
            found[0],
            self.registered(found[0]).len() as int,
        )
        ||| self.slots[found[0] as int].unwrap().metadata is None
    }

    /// Given requirement number `number` applies.
    pub open spec fn asked_for(self, oracle: spec_fn(QuestionView) -> bool, number: int) -> bool {
        oracle(QuestionView::Applies { requirement: self.roots[number], extras: Seq::empty() })
    }

    /// Each of the first `upto` given requirements that applies has been
    /// seen.
    pub open spec fn seeded(self, oracle: spec_fn(QuestionView) -> bool, upto: int) -> bool {
        forall|i: int|
            0 <= i < upto && #[trigger] self.asked_for(oracle, i) ==> self.seen.contains(
                self.roots[i],
            )
    }

    /// Every requirement seen, other than the one being visited, waits on
    /// the stack or is satisfied.
    pub open spec fn resolved(
        self,
        oracle: spec_fn(QuestionView) -> bool,
        visited: Option<RequirementView>,
    ) -> bool {
        forall|i: int|
            0 <= i < self.seen.len() ==> self.stack.contains(#[trigger] self.seen[i]) || visited
                == Some(self.seen[i]) || self.settled(oracle, self.seen[i])
    }

    /// The requirement seen at `at` has a reason to be there: it is a given
    /// requirement that applies, or a dependency that applies of the
    /// distribution that meets a requirement seen before it.
    pub open spec fn reached(self, oracle: spec_fn(QuestionView) -> bool, at: int) -> bool {
        ||| exists|i: int|
            0 <= i < self.roots.len() && #[trigger] self.asked_for(oracle, i) && self.roots[i]
                == self.seen[at]
        ||| exists|j: int, k: int|
            0 <= j < at && self.candidates(self.seen[j]).len() == 1 && self.holds(
                self.candidates(self.seen[j])[0],
            ) && self.slots[self.candidates(self.seen[j])[0] as int].unwrap().metadata is Some
                && 0 <= k < self.dependencies(self.candidates(self.seen[j])[0]).len()
                && #[trigger] self.wants(oracle, self.seen[j], self.candidates(self.seen[j])[0], k)
                && self.dependencies(self.candidates(self.seen[j])[0])[k].requirement()
                == self.seen[at]
    }

    /// Every requirement seen has a reason to be there.
    pub open spec fn grounded(self, oracle: spec_fn(QuestionView) -> bool) -> bool {
        forall|at: int| 0 <= at < self.seen.len() ==> #[trigger] self.reached(oracle, at)
    }

    /// What a fresh verdict stands on: the requirements seen are each listed
    /// once and each has a reason to be there, every given requirement that
    /// applies is among them, and every one of them is satisfied.
    pub open spec fn closed(self, oracle: spec_fn(QuestionView) -> bool) -> bool {
        &&& self.seen.no_duplicates()
        &&& self.grounded(oracle)
        &&& self.seeded(oracle, self.roots.len() as int)
        &&& forall|i: int| 0 <= i < self.seen.len() ==> self.settled(oracle, #[trigger] self.seen[i])
    }
}

impl Paused {
    /// The requirement being visited, if the walk is past the given
    /// requirements.
    pub open spec fn visited(self) -> Option<RequirementView> {
        match self.waiting {
            Waiting::Seeding { root } => None,
            Waiting::Source { requirement, slot } => Some(requirement),
            Waiting::Constraint { requirement, slot, position } => Some(requirement),
            Waiting::Dependency { requirement, slot, position } => Some(requirement),
        }
    }

    /// What holds of a walk between two steps when every answer so far came
    /// from `oracle`.
    pub open spec fn faithful(self, oracle: spec_fn(QuestionView) -> bool) -> bool {
        let walk = self.walk;
        &&& walk.slots.len() <= usize::MAX
        &&& walk.constraints.len() <= usize::MAX
        &&& walk.tidy()
        &&& self.sound()
        &&& walk.grounded(oracle)
        &&& walk.resolved(oracle, self.visited())
        &&& match self.waiting {
            Waiting::Seeding { root } => walk.seeded(oracle, root),
            Waiting::Source { requirement, slot } => {
                &&& walk.seeded(oracle, walk.roots.len() as int)
                &&& walk.seen.contains(requirement)
                &&& walk.candidates(requirement) == seq![slot]
            },
            Waiting::Constraint { requirement, slot, position } => {
                &&& walk.seeded(oracle, walk.roots.len() as int)
                &&& walk.seen.contains(requirement)
                &&& walk.candidates(requirement) == seq![slot]
                &&& walk.accepted(oracle, requirement, slot, position)
            },
            Waiting::Dependency { requirement, slot, position } => {
                &&& walk.seeded(oracle, walk.roots.len() as int)
                &&& walk.seen.contains(requirement)
                &&& walk.candidates(requirement) == seq![slot]
                &&& walk.accepted(oracle, requirement, slot, walk.registered(slot).len() as int)
                &&& walk.followed(oracle, requirement, slot, position)
            },
        }
    }
}

/// What holds of where a faithful walk leads: a walk that goes on is
/// faithful still; a fresh verdict lists the requirements of a closed walk;
/// an unsatisfied verdict names a requirement that was seen, had a reason to
/// be seen and is not satisfied.
pub open spec fn upheld(start: Walk, outcome: Outcome, oracle: spec_fn(QuestionView) -> bool) -> bool {
    match outcome {
        Outcome::Ask { paused } => {
            &&& paused.faithful(oracle)
            &&& paused.walk.slots == start.slots
            &&& paused.walk.roots == start.roots
            &&& paused.walk.constraints == start.constraints
        },
        Outcome::Done(Verdict::Fresh(seen)) => (Walk {
            seen,
            stack: Seq::empty(),
            ..start
        }).closed(oracle),
        Outcome::Done(Verdict::Unsatisfied(text)) => exists|seen: Seq<RequirementView>, at: int|
            {
                let walk = Walk { seen, stack: Seq::empty(), ..start };
                &&& 0 <= at < seen.len()
                &&& walk.grounded(oracle)
                &&& #[trigger] seen[at].text == text
                &&& walk.failed(oracle, seen[at])
            },
    }
}

/// Which requirements are satisfied does not depend on what waits on the
/// stack.
proof fn lemma_settled_ignores_stack(
    a: Walk,
    b: Walk,
    oracle: spec_fn(QuestionView) -> bool,
    requirement: RequirementView,
)
    requires
        a.slots == b.slots,
        a.roots == b.roots,
        a.constraints == b.constraints,
        a.seen == b.seen,
    ensures
        a.settled(oracle, requirement) == b.settled(oracle, requirement),
        a.failed(oracle, requirement) == b.failed(oracle, requirement),
{
    let found = a.candidates(requirement);
    assert(found == b.candidates(requirement));
    if found.len() == 1 {
        let slot = found[0];
        assert(a.registered(slot) == b.registered(slot));
        assert(a.dependencies(slot) == b.dependencies(slot));
        let all = a.registered(slot).len() as int;
        if a.accepted(oracle, requirement, slot, all) {
            assert forall|k: int| 0 <= k < all implies oracle(
                QuestionView::Matches {
                    distribution: slot,
                    requirement: #[trigger] b.constraints[b.registered(slot)[k] as int],
                },
            ) by {
                assert(a.constraints[a.registered(slot)[k] as int] == b.constraints[b.registered(
                    slot,
                )[k] as int]);
            }
        }
        if b.accepted(oracle, requirement, slot, all) {
            assert forall|k: int| 0 <= k < all implies oracle(
                QuestionView::Matches {
                    distribution: slot,
                    requirement: #[trigger] a.constraints[a.registered(slot)[k] as int],
                },
            ) by {
                assert(a.constraints[a.registered(slot)[k] as int] == b.constraints[b.registered(
                    slot,
                )[k] as int]);
            }
        }
        let count = a.dependencies(slot).len() as int;
        if a.followed(oracle, requirement, slot, count) {
            assert forall|k: int|
                0 <= k < count && #[trigger] b.wants(oracle, requirement, slot, k) implies b.seen.contains(
                b.dependencies(slot)[k].requirement(),
            ) by {
                assert(a.wants(oracle, requirement, slot, k));
            }
        }
        if b.followed(oracle, requirement, slot, count) {
            assert forall|k: int|
                0 <= k < count && #[trigger] a.wants(oracle, requirement, slot, k) implies a.seen.contains(
                a.dependencies(slot)[k].requirement(),
            ) by {
                assert(b.wants(oracle, requirement, slot, k));
            }
        }
    }
}

/// Whether a requirement seen has a reason to be there does not depend on
/// what waits on the stack, nor on what was seen after it.
proof fn lemma_reached_ignores_later(
    a: Walk,
    b: Walk,
    oracle: spec_fn(QuestionView) -> bool,
    at: int,
)
    requires
        a.slots == b.slots,
        a.roots == b.roots,
        a.constraints == b.constraints,
        0 <= at < a.seen.len(),
        a.seen.len() <= b.seen.len(),
        forall|i: int| 0 <= i <= at ==> a.seen[i] == b.seen[i],
        a.reached(oracle, at),
    ensures
        b.reached(oracle, at),
{
    if exists|i: int|
        0 <= i < a.roots.len() && #[trigger] a.asked_for(oracle, i) && a.roots[i] == a.seen[at] {
        let i = choose|i: int|
            0 <= i < a.roots.len() && #[trigger] a.asked_for(oracle, i) && a.roots[i] == a.seen[at];
        assert(b.asked_for(oracle, i) && b.roots[i] == b.seen[at]);
    } else {
        let (j, k) = choose|j: int, k: int|
            0 <= j < at && a.candidates(a.seen[j]).len() == 1 && a.holds(
                a.candidates(a.seen[j])[0],
            ) && a.slots[a.candidates(a.seen[j])[0] as int].unwrap().metadata is Some && 0 <= k
                < a.dependencies(a.candidates(a.seen[j])[0]).len() && #[trigger] a.wants(
                oracle,
                a.seen[j],
                a.candidates(a.seen[j])[0],
                k,
            ) && a.dependencies(a.candidates(a.seen[j])[0])[k].requirement() == a.seen[at];
        assert(a.seen[j] == b.seen[j]);
        let slot = a.candidates(a.seen[j])[0];
        assert(b.candidates(b.seen[j]) == a.candidates(a.seen[j]));
        assert(b.dependencies(slot) == a.dependencies(slot));
        assert(b.wants(oracle, b.seen[j], slot, k));
    }
}

/// Taking up a requirement that has a reason to be seen keeps what a faithful
/// walk has established.
proof fn lemma_enqueue_keeps(
    walk: Walk,
    oracle: spec_fn(QuestionView) -> bool,
    requirement: RequirementView,
    visited: Option<RequirementView>,
)
    requires
        walk.tidy(),
        walk.grounded(oracle),
        walk.resolved(oracle, visited),
        walk.seen.contains(requirement) || (Walk {
            seen: walk.seen.push(requirement),
            ..walk
        }).reached(oracle, walk.seen.len() as int),
    ensures
        walk.enqueue(requirement).tidy(),
        walk.enqueue(requirement).seen.contains(requirement),
        walk.enqueue(requirement).grounded(oracle),
        walk.enqueue(requirement).resolved(oracle, visited),
        forall|other: RequirementView|
            walk.seen.contains(other) ==> walk.enqueue(requirement).seen.contains(other),
        forall|upto: int|
            walk.seeded(oracle, upto) ==> walk.enqueue(requirement).seeded(oracle, upto),
        forall|wanting: RequirementView, slot: usize, upto: int|
            walk.followed(oracle, wanting, slot, upto) ==> walk.enqueue(requirement).followed(
                oracle,
                wanting,
                slot,
                upto,
            ),
{
    let after = walk.enqueue(requirement);
    lemma_enqueue_tidy(walk, requirement);
    assert forall|other: RequirementView| walk.seen.contains(other) implies after.seen.contains(
        other,
    ) by {
        let i = choose|i: int| 0 <= i < walk.seen.len() && walk.seen[i] == other;
        assert(after.seen[i] == other);
    }
    assert forall|upto: int| walk.seeded(oracle, upto) implies after.seeded(oracle, upto) by {
        assert forall|i: int|
            0 <= i < upto && #[trigger] after.asked_for(oracle, i) implies after.seen.contains(
            after.roots[i],
        ) by {
            assert(walk.asked_for(oracle, i));
        }
    }
    assert forall|wanting: RequirementView, slot: usize, upto: int|
        walk.followed(oracle, wanting, slot, upto) implies after.followed(
        oracle,
        wanting,
        slot,
        upto,
    ) by {
        assert forall|k: int|
            0 <= k < upto && #[trigger] after.wants(oracle, wanting, slot, k) implies after.seen.contains(
            after.dependencies(slot)[k].requirement(),
        ) by {
            assert(walk.wants(oracle, wanting, slot, k));
        }
    }
    assert forall|at: int| 0 <= at < after.seen.len() implies #[trigger] after.reached(
        oracle,
        at,
    ) by {
        if at < walk.seen.len() {
            assert(walk.reached(oracle, at));
            lemma_reached_ignores_later(walk, after, oracle, at);
        } else {
            let longer = Walk { seen: walk.seen.push(requirement), ..walk };
            lemma_reached_ignores_later(longer, after, oracle, at);
        }
    }
    assert forall|i: int| 0 <= i < after.seen.len() implies after.stack.contains(
        #[trigger] after.seen[i],
    ) || visited == Some(after.seen[i]) || after.settled(oracle, after.seen[i]) by {
        if i < walk.seen.len() {
            let one = walk.seen[i];
            assert(after.seen[i] == one);
            if walk.stack.contains(one) {
                let j = choose|j: int| 0 <= j < walk.stack.len() && walk.stack[j] == one;
                assert(after.stack[j] == one);
            } else if visited != Some(one) {
                assert(walk.settled(oracle, one));
                lemma_settled_grows(walk, after, oracle, one);
            }
        } else {
            assert(after.stack[after.stack.len() - 1] == after.seen[i]);
        }
    }
}

/// A requirement that is satisfied stays so when more requirements are seen.
proof fn lemma_settled_grows(
    before: Walk,
    after: Walk,
    oracle: spec_fn(QuestionView) -> bool,
    requirement: RequirementView,
)
    requires
        before.slots == after.slots,
        before.roots == after.roots,
        before.constraints == after.constraints,
        forall|other: RequirementView|
            before.seen.contains(other) ==> after.seen.contains(other),
        before.settled(oracle, requirement),
    ensures
        after.settled(oracle, requirement),
{
    let found = before.candidates(requirement);
    assert(found == after.candidates(requirement));
    let slot = found[0];
    assert(before.registered(slot) == after.registered(slot));
    assert(before.dependencies(slot) == after.dependencies(slot));
    let all = before.registered(slot).len() as int;
    assert forall|k: int| 0 <= k < all implies oracle(
        QuestionView::Matches {
            distribution: slot,
            requirement: #[trigger] after.constraints[after.registered(slot)[k] as int],
        },
    ) by {
        assert(before.constraints[before.registered(slot)[k] as int]
            == after.constraints[after.registered(slot)[k] as int]);
    }
    let count = before.dependencies(slot).len() as int;
    assert forall|k: int|
        0 <= k < count && #[trigger] after.wants(oracle, requirement, slot, k) implies after.seen.contains(
        after.dependencies(slot)[k].requirement(),
    ) by {
        assert(before.wants(oracle, requirement, slot, k));
    }
}

/// Taking the next requirement off the stack of a faithful walk leads where
/// it should.
proof fn lemma_pop_upheld(walk: Walk, oracle: spec_fn(QuestionView) -> bool)
    requires
        walk.slots.len() <= usize::MAX,
        walk.constraints.len() <= usize::MAX,
        walk.tidy(),
        walk.grounded(oracle),
        walk.resolved(oracle, None),
        walk.seeded(oracle, walk.roots.len() as int),
    ensures
        upheld(walk, walk.pop(), oracle),
{
    if walk.stack.len() == 0 {
        assert(walk.stack =~= Seq::empty());
        assert((Walk { seen: walk.seen, stack: Seq::empty(), ..walk }) == walk);
        assert forall|i: int| 0 <= i < walk.seen.len() implies walk.settled(
            oracle,
            #[trigger] walk.seen[i],
        ) by {
            assert(!walk.stack.contains(walk.seen[i]));
        }
    } else {
        let requirement = walk.stack.last();
        let rest = Walk { stack: walk.stack.drop_last(), ..walk };
        let found = rest.candidates(requirement);
        assert(walk.seen.contains(requirement));
        assert forall|at: int| 0 <= at < rest.seen.len() implies #[trigger] rest.reached(
            oracle,
            at,
        ) by {
            assert(walk.reached(oracle, at));
            lemma_reached_ignores_later(walk, rest, oracle, at);
        }
        if found.len() == 1 {
            let paused = Paused {
                walk: rest,
                waiting: Waiting::Source { requirement, slot: found[0] },
            };
            match requirement.target {
                TargetView::Name(name) => {
                    lemma_positions_within(name_labels(walk.slots), name);
                },
                TargetView::Url(url) => {
                    lemma_positions_within(url_labels(walk.slots), url);
                },
            }
            assert(found =~= seq![found[0]]);
            assert forall|i: int| 0 <= i < rest.stack.len() implies rest.seen.contains(
                #[trigger] rest.stack[i],
            ) by {
                assert(rest.stack[i] == walk.stack[i]);
            }
            assert forall|i: int| 0 <= i < rest.seen.len() implies rest.stack.contains(
                #[trigger] rest.seen[i],
            ) || Some(requirement) == Some(rest.seen[i]) || rest.settled(oracle, rest.seen[i]) by {
                let one = walk.seen[i];
                if walk.stack.contains(one) {
                    let j = choose|j: int| 0 <= j < walk.stack.len() && walk.stack[j] == one;
                    if j < walk.stack.len() - 1 {
                        assert(rest.stack[j] == one);
                    }
                } else {
                    assert(walk.settled(oracle, one));
                    lemma_settled_ignores_stack(walk, rest, oracle, one);
                }
            }
            assert forall|i: int|
                0 <= i < rest.roots.len() && #[trigger] rest.asked_for(
                    oracle,
                    i,
                ) implies rest.seen.contains(rest.roots[i]) by {
                assert(walk.asked_for(oracle, i));
            }
            assert(paused.faithful(oracle));
        } else {
            let at = choose|at: int| 0 <= at < walk.seen.len() && walk.seen[at] == requirement;
            let ended = Walk { seen: walk.seen, stack: Seq::empty(), ..walk };
            assert forall|i: int| 0 <= i < ended.seen.len() implies #[trigger] ended.reached(
                oracle,
                i,
            ) by {
                assert(walk.reached(oracle, i));
                lemma_reached_ignores_later(walk, ended, oracle, i);
            }
            assert(ended.candidates(requirement) == found);
            assert(ended.seen[at].text == requirement.text && ended.failed(oracle, ended.seen[at]));
        }
    }
}

/// Going on to the dependencies of the candidate of a faithful walk leads
/// where it should.
proof fn lemma_expand_upheld(
    walk: Walk,
    oracle: spec_fn(QuestionView) -> bool,
    requirement: RequirementView,
    slot: usize,
    position: int,
)
    requires
        walk.slots.len() <= usize::MAX,
        walk.constraints.len() <= usize::MAX,
        walk.tidy(),
        walk.grounded(oracle),
        walk.resolved(oracle, Some(requirement)),
        walk.seeded(oracle, walk.roots.len() as int),
        walk.seen.contains(requirement),
        walk.candidates(requirement) == seq![slot],
        walk.holds(slot),
        walk.slots[slot as int].unwrap().metadata is Some,
        walk.accepted(oracle, requirement, slot, walk.registered(slot).len() as int),
        walk.followed(oracle, requirement, slot, position),
        0 <= position <= walk.dependencies(slot).len(),
    ensures
        upheld(walk, walk.expand(requirement, slot, position), oracle),
{
    if position < walk.dependencies(slot).len() {
        let paused = Paused {
            walk,
            waiting: Waiting::Dependency { requirement, slot, position },
        };
        assert(paused.faithful(oracle));
    } else {
        assert(walk.settled(oracle, requirement));
        assert forall|i: int| 0 <= i < walk.seen.len() implies walk.stack.contains(
            #[trigger] walk.seen[i],
        ) || None::<RequirementView> == Some(walk.seen[i]) || walk.settled(
            oracle,
            walk.seen[i],
        ) by {
            if walk.seen[i] == requirement {
            }
        }
        lemma_pop_upheld(walk, oracle);
    }
}

/// Going on to the constraints on the candidate of a faithful walk leads
/// where it should.
proof fn lemma_constrain_upheld(
    walk: Walk,
    oracle: spec_fn(QuestionView) -> bool,
    requirement: RequirementView,
    slot: usize,
    position: int,
)
    requires
        walk.slots.len() <= usize::MAX,
        walk.constraints.len() <= usize::MAX,
        walk.tidy(),
        walk.grounded(oracle),
        walk.resolved(oracle, Some(requirement)),
        walk.seeded(oracle, walk.roots.len() as int),
        walk.seen.contains(requirement),
        walk.candidates(requirement) == seq![slot],
        walk.holds(slot),
        walk.accepted(oracle, requirement, slot, position),
        0 <= position <= walk.registered(slot).len(),
    ensures
        upheld(walk, walk.constrain(requirement, slot, position), oracle),
{
    lemma_positions_within(
        constraint_labels(walk.constraints),
        walk.slots[slot as int].unwrap().name,
    );
    if position < walk.registered(slot).len() {
        let paused = Paused {
            walk,
            waiting: Waiting::Constraint { requirement, slot, position },
        };
        assert(paused.faithful(oracle));
    } else if walk.slots[slot as int].unwrap().metadata is Some {
        lemma_expand_upheld(walk, oracle, requirement, slot, 0);
    } else {
        lemma_failure_upheld(walk, oracle, requirement);
    }
}

/// A walk that ends for want of a satisfied requirement names one that was
/// seen and is not satisfied.
proof fn lemma_failure_upheld(
    walk: Walk,
    oracle: spec_fn(QuestionView) -> bool,
    requirement: RequirementView,
)
    requires
        walk.grounded(oracle),
        walk.seen.contains(requirement),
        walk.failed(oracle, requirement),
    ensures
        upheld(walk, Outcome::Done(Verdict::Unsatisfied(requirement.text)), oracle),
{
    let at = choose|at: int| 0 <= at < walk.seen.len() && walk.seen[at] == requirement;
    let ended = Walk { seen: walk.seen, stack: Seq::empty(), ..walk };
    assert forall|i: int| 0 <= i < ended.seen.len() implies #[trigger] ended.reached(oracle, i) by {
        assert(walk.reached(oracle, i));
        lemma_reached_ignores_later(walk, ended, oracle, i);
    }
    lemma_settled_ignores_stack(walk, ended, oracle, requirement);
    assert(ended.seen[at].text == requirement.text && ended.failed(oracle, ended.seen[at]));
}

/// One step of a faithful walk, taken with the oracle's answer, leads where
/// it should.
pub proof fn lemma_step_upheld(paused: Paused, oracle: spec_fn(QuestionView) -> bool)
    requires
        paused.faithful(oracle),
    ensures
        upheld(paused.walk, paused.next(oracle(paused.question())), oracle),
{
    let walk = paused.walk;
    let yes = oracle(paused.question());
    match paused.waiting {
        Waiting::Seeding { root } => {
            let after = if yes {
                walk.enqueue(walk.roots[root])
            } else {
                walk
            };
            if yes {
                let longer = Walk { seen: walk.seen.push(walk.roots[root]), ..walk };
                assert(longer.asked_for(oracle, root));
                assert(longer.reached(oracle, walk.seen.len() as int));
                lemma_enqueue_keeps(walk, oracle, walk.roots[root], None);
            }
            assert forall|i: int|
                0 <= i < root + 1 && #[trigger] after.asked_for(
                    oracle,
                    i,
                ) implies after.seen.contains(after.roots[i]) by {
                assert(walk.asked_for(oracle, i));
            }
            if root + 1 < walk.roots.len() {
                let next = Paused { walk: after, waiting: Waiting::Seeding { root: root + 1 } };
                assert(next.faithful(oracle));
            } else {
                lemma_pop_upheld(after, oracle);
            }
        },
        Waiting::Source { requirement, slot } => {
            if yes {
                lemma_constrain_upheld(walk, oracle, requirement, slot, 0);
            } else {
                lemma_failure_upheld(walk, oracle, requirement);
            }
        },
        Waiting::Constraint { requirement, slot, position } => {
            if yes {
                assert forall|k: int| 0 <= k < position + 1 implies oracle(
                    QuestionView::Matches {
                        distribution: slot,
                        requirement: #[trigger] walk.constraints[walk.registered(slot)[k] as int],
                    },
                ) by {}
                lemma_constrain_upheld(walk, oracle, requirement, slot, position + 1);
            } else {
                assert(!oracle(
                    QuestionView::Matches {
                        distribution: slot,
                        requirement: walk.constraints[walk.registered(slot)[position] as int],
                    },
                ));
                lemma_failure_upheld(walk, oracle, requirement);
            }
        },
        Waiting::Dependency { requirement, slot, position } => {
            let wanted = walk.dependencies(slot)[position].requirement();
            let after = if yes {
                walk.enqueue(wanted)
            } else {
                walk
            };
            if yes {
                let longer = Walk { seen: walk.seen.push(wanted), ..walk };
                let j = choose|j: int| 0 <= j < walk.seen.len() && walk.seen[j] == requirement;
                assert(longer.seen[j] == requirement);
                assert(longer.candidates(longer.seen[j]) == walk.candidates(requirement));
                assert(longer.candidates(longer.seen[j])[0] == slot);
                assert(longer.dependencies(slot) == walk.dependencies(slot));
                assert(longer.wants(
                    oracle,
                    longer.seen[j],
                    longer.candidates(longer.seen[j])[0],
                    position,
                ));
                assert(longer.seen[walk.seen.len() as int] == wanted);
                assert(longer.reached(oracle, walk.seen.len() as int));
                lemma_enqueue_keeps(walk, oracle, wanted, Some(requirement));
            }
            assert(after.wants(oracle, requirement, slot, position) == yes);
            assert forall|k: int|
                0 <= k < position + 1 && #[trigger] after.wants(
                    oracle,
                    requirement,
                    slot,
                    k,
                ) implies after.seen.contains(after.dependencies(slot)[k].requirement()) by {
                if k < position {
                    assert(walk.wants(oracle, requirement, slot, k));
                }
            }
            assert forall|k: int| 0 <= k < after.registered(slot).len() implies oracle(
                QuestionView::Matches {
                    distribution: slot,
                    requirement: #[trigger] after.constraints[after.registered(slot)[k] as int],
                },
            ) by {
                assert(walk.constraints[walk.registered(slot)[k] as int]
                    == after.constraints[after.registered(slot)[k] as int]);
            }
            assert forall|i: int|
                0 <= i < after.roots.len() && #[trigger] after.asked_for(
                    oracle,
                    i,
                ) implies after.seen.contains(after.roots[i]) by {
                assert(walk.asked_for(oracle, i));
            }
            lemma_expand_upheld(after, oracle, requirement, slot, position + 1);
        },
    }
}

/// What was established of a walk is established of every verdict it comes
/// to.
proof fn lemma_run_upheld(
    start: Walk,
    outcome: Outcome,
    oracle: spec_fn(QuestionView) -> bool,
    fuel: nat,
)
    requires
        upheld(start, outcome, oracle),
    ensures
        run(outcome, oracle, fuel) matches Some(result) ==> upheld(
            start,
            Outcome::Done(result),
            oracle,
        ),
    decreases fuel,
{
    match outcome {
        Outcome::Done(result) => {},
        Outcome::Ask { paused } => {
            if fuel > 0 {
                let next = paused.next(oracle(paused.question()));
                lemma_step_upheld(paused, oracle);
                lemma_same_ground(paused.walk, start, next, oracle);
                lemma_run_upheld(start, next, oracle, (fuel - 1) as nat);
            }
        },
    }
}

/// What is upheld relative to one walk is upheld relative to any walk over
/// the same slots, requirements and constraints.
proof fn lemma_same_ground(
    a: Walk,
    b: Walk,
    outcome: Outcome,
    oracle: spec_fn(QuestionView) -> bool,
)
    requires
        a.slots == b.slots,
        a.roots == b.roots,
        a.constraints == b.constraints,
        upheld(a, outcome, oracle),
    ensures
        upheld(b, outcome, oracle),
{
    match outcome {
        Outcome::Done(Verdict::Fresh(seen)) => {
            assert((Walk { seen, stack: Seq::empty(), ..a }) == (Walk {
                seen,
                stack: Seq::empty(),
                ..b
            }));
        },
        Outcome::Done(Verdict::Unsatisfied(text)) => {
            let (seen, at) = choose|seen: Seq<RequirementView>, at: int|
                {
                    let walk = Walk { seen, stack: Seq::empty(), ..a };
                    &&& 0 <= at < seen.len()
                    &&& walk.grounded(oracle)
                    &&& #[trigger] seen[at].text == text
                    &&& walk.failed(oracle, seen[at])
                };
            assert((Walk { seen, stack: Seq::empty(), ..a }) == (Walk {
                seen,
                stack: Seq::empty(),
                ..b
            }));
        },
        _ => {},
    }
}

/// The meaning of a verdict. Run a walk over `slots` from its beginning,
/// with every question answered by `oracle`, whatever that is. If the walk
/// ends fresh, the requirements it lists are each listed once, each is a
/// given requirement that applies or an applying dependency of the
/// distribution that meets one listed before it, every given requirement
/// that applies is listed, and every one listed is satisfied. If it ends
/// unsatisfied, it names a requirement that was reached in this way and is
/// not satisfied.
pub proof fn theorem_verdict(
    slots: Seq<Option<DistView>>,
    roots: Seq<RequirementView>,
    constraints: Seq<RequirementView>,
    oracle: spec_fn(QuestionView) -> bool,
    fuel: nat,
)
    requires
        slots.len() <= usize::MAX,
        constraints.len() <= usize::MAX,
    ensures
        run(begin(slots, roots, constraints), oracle, fuel) matches Some(result) ==> upheld(
            Walk { slots, roots, constraints, stack: Seq::empty(), seen: Seq::empty() },
            Outcome::Done(result),
            oracle,
        ),
{
    let start = Walk { slots, roots, constraints, stack: Seq::empty(), seen: Seq::empty() };
    if roots.len() > 0 {
        let paused = Paused { walk: start, waiting: Waiting::Seeding { root: 0 } };
        assert(paused.faithful(oracle));
    } else {
        lemma_pop_upheld(start, oracle);
    }
    lemma_run_upheld(start, begin(slots, roots, constraints), oracle, fuel);
}

/// The dependencies of every installed distribution, read as requirements,
/// in slot order.
pub open spec fn dependency_requirements(slots: Seq<Option<DistView>>) -> Seq<RequirementView>
    decreases slots.len(),
{
    if slots.len() == 0 {
        Seq::empty()
    } else {
        let here = match slots.last() {
            Some(dist) => match dist.metadata {
                Some(metadata) => metadata.requires_dist.map_values(
                    |dependency: DependencyView| dependency.requirement(),
                ),
                None => Seq::empty(),
            },
            None => Seq::empty(),
        };
        dependency_requirements(slots.drop_last()) + here
    }
}

/// Every dependency of an installed distribution is among the dependencies
/// of all of them, and no distribution declares more than all do together.
proof fn lemma_dependency_listed(slots: Seq<Option<DistView>>, slot: int)
    requires
        0 <= slot < slots.len(),
        slots[slot] is Some,
        slots[slot].unwrap().metadata is Some,
    ensures
        slots[slot].unwrap().metadata.unwrap().requires_dist.len() <= dependency_requirements(
            slots,
        ).len(),
        forall|k: int|
            0 <= k < slots[slot].unwrap().metadata.unwrap().requires_dist.len()
                ==> dependency_requirements(slots).contains(
                (#[trigger] slots[slot].unwrap().metadata.unwrap().requires_dist[k]).requirement(),
            ),
    decreases slots.len(),
{
    let declared = slots[slot].unwrap().metadata.unwrap().requires_dist;
    let all = dependency_requirements(slots);
    let earlier = dependency_requirements(slots.drop_last());
    if slot < slots.len() - 1 {
        lemma_dependency_listed(slots.drop_last(), slot);
        assert forall|k: int| 0 <= k < declared.len() implies all.contains(
            (#[trigger] declared[k]).requirement(),
        ) by {
            let i = choose|i: int|
                0 <= i < earlier.len() && earlier[i] == declared[k].requirement();
            assert(all[i] == declared[k].requirement());
        }
    } else {
        assert forall|k: int| 0 <= k < declared.len() implies all.contains(
            (#[trigger] declared[k]).requirement(),
        ) by {
            assert(all[earlier.len() + k] == declared[k].requirement());
        }
    }
}

impl Walk {
    /// Every requirement a walk can come to see: the given ones and the
    /// dependencies of every installed distribution.
    pub open spec fn universe(self) -> Seq<RequirementView> {
        self.roots + dependency_requirements(self.slots)
    }

    /// Nothing has been seen that lies outside the universe.
    pub open spec fn confined(self) -> bool {
        forall|i: int| 0 <= i < self.seen.len() ==> self.universe().contains(#[trigger] self.seen[i])
    }

    /// How many requirements may still come to be visited: those on the
    /// stack and those of the universe not yet seen.
    pub open spec fn unvisited(self) -> int {
        self.stack.len() + self.universe().len() - self.seen.len()
    }

    /// The steps one visit can take at most, and one more.
    pub open spec fn visit(self) -> int {
        (self.constraints.len() + dependency_requirements(self.slots).len() + 3) as int
    }

    /// The walk is tidy, has seen nothing outside its universe, and its
    /// slots and constraints can be numbered.
    pub open spec fn orderly(self) -> bool {
        &&& self.slots.len() <= usize::MAX
        &&& self.constraints.len() <= usize::MAX
        &&& self.tidy()
        &&& self.confined()
    }
}

/// A bound on the steps a walk has left.
pub open spec fn steps_left(outcome: Outcome) -> int {
    match outcome {
        Outcome::Done(_) => 0,
        Outcome::Ask { paused } => {
            let walk = paused.walk;
            match paused.waiting {
                Waiting::Seeding { root } => (walk.unvisited() + 1) * walk.visit() + (
                walk.roots.len() - root),
                Waiting::Source { requirement, slot } => walk.unvisited() * walk.visit()
                    + walk.visit() - 1,
                Waiting::Constraint { requirement, slot, position } => walk.unvisited()
                    * walk.visit() + walk.visit() - 2 - position,
                Waiting::Dependency { requirement, slot, position } => walk.unvisited()
                    * walk.visit() + (walk.dependencies(slot).len() - position),
            }
        },
    }
}

/// A walk that goes on is orderly and its question sound.
pub open spec fn goes_on_orderly(outcome: Outcome) -> bool {
    match outcome {
        Outcome::Ask { paused } => paused.walk.orderly() && paused.sound(),
        Outcome::Done(_) => true,
    }
}

/// An orderly walk has seen no more requirements than its universe holds.
proof fn lemma_seen_bounded(walk: Walk)
    requires
        walk.orderly(),
    ensures
        walk.seen.len() <= walk.universe().len(),
        0 <= walk.unvisited(),
        3 <= walk.visit(),
        0 <= walk.unvisited() * walk.visit(),
{
    walk.seen.unique_seq_to_set();
    walk.universe().lemma_cardinality_of_set();
    vstd::seq_lib::seq_to_set_is_finite(walk.universe());
    assert(walk.seen.to_set().subset_of(walk.universe().to_set())) by {
        assert forall|one: RequirementView|
            walk.seen.to_set().contains(one) implies walk.universe().to_set().contains(one) by {
            let i = choose|i: int| 0 <= i < walk.seen.len() && walk.seen[i] == one;
            assert(walk.universe().contains(walk.seen[i]));
        }
    }
    vstd::set_lib::lemma_len_subset(walk.seen.to_set(), walk.universe().to_set());
    assert(0 <= walk.unvisited() * walk.visit()) by (nonlinear_arith)
        requires
            0 <= walk.unvisited(),
            0 <= walk.visit(),
    ;
}

/// Taking up a requirement of the universe keeps a walk orderly and leaves
/// as many requirements unvisited.
proof fn lemma_enqueue_orderly(walk: Walk, requirement: RequirementView)
    requires
        walk.orderly(),
        walk.universe().contains(requirement),
    ensures
        walk.enqueue(requirement).orderly(),
        walk.enqueue(requirement).unvisited() == walk.unvisited(),
        walk.enqueue(requirement).visit() == walk.visit(),
{
    lemma_enqueue_tidy(walk, requirement);
    let after = walk.enqueue(requirement);
    assert(after.universe() == walk.universe());
    assert forall|i: int| 0 <= i < after.seen.len() implies after.universe().contains(
        #[trigger] after.seen[i],
    ) by {
        if i < walk.seen.len() {
            assert(after.seen[i] == walk.seen[i]);
        }
    }
}

/// Multiplication distributes over a step of one.
proof fn lemma_times(a: int, w: int)
    ensures
        (a - 1) * w == a * w - w,
        (a + 1) * w == a * w + w,
{
    assert((a - 1) * w == a * w - w) by (nonlinear_arith);
    assert((a + 1) * w == a * w + w) by (nonlinear_arith);
}

/// Taking the next requirement off the stack of an orderly walk leaves no
/// more steps than the unvisited requirements can take.
pub proof fn lemma_pop_steps(walk: Walk)
    requires
        walk.orderly(),
    ensures
        goes_on_orderly(walk.pop()),
        0 <= steps_left(walk.pop()) <= walk.unvisited() * walk.visit(),
{
    lemma_seen_bounded(walk);
    crate::satisfies::lemma_pop_tidy(walk);
    if walk.stack.len() > 0 {
        let rest = Walk { stack: walk.stack.drop_last(), ..walk };
        assert(rest.universe() == walk.universe());
        assert forall|i: int| 0 <= i < rest.seen.len() implies rest.universe().contains(
            #[trigger] rest.seen[i],
        ) by {
            assert(walk.universe().contains(walk.seen[i]));
        }
        assert forall|i: int| 0 <= i < rest.stack.len() implies rest.seen.contains(
            #[trigger] rest.stack[i],
        ) by {
            assert(rest.stack[i] == walk.stack[i]);
        }
        if rest.candidates(walk.stack.last()).len() == 1 {
            lemma_seen_bounded(rest);
            lemma_times(walk.unvisited(), walk.visit());
        }
    }
}

/// Going on to the dependencies of a candidate leaves no more steps than the
/// dependencies from that one on and the unvisited requirements can take.
proof fn lemma_expand_steps(walk: Walk, requirement: RequirementView, slot: usize, position: int)
    requires
        walk.orderly(),
        walk.holds(slot),
        walk.slots[slot as int].unwrap().metadata is Some,
        0 <= position <= walk.dependencies(slot).len(),
    ensures
        goes_on_orderly(walk.expand(requirement, slot, position)),
        0 <= steps_left(walk.expand(requirement, slot, position)) <= walk.unvisited()
            * walk.visit() + (walk.dependencies(slot).len() - position),
{
    lemma_seen_bounded(walk);
    if position >= walk.dependencies(slot).len() {
        lemma_pop_steps(walk);
    }
}

/// Going on to the constraints on a candidate leaves fewer steps than a
/// visit from its beginning and the unvisited requirements can take.
proof fn lemma_constrain_steps(
    walk: Walk,
    requirement: RequirementView,
    slot: usize,
    position: int,
)
    requires
        walk.orderly(),
        walk.holds(slot),
        0 <= position <= walk.registered(slot).len(),
    ensures
        goes_on_orderly(walk.constrain(requirement, slot, position)),
        0 <= steps_left(walk.constrain(requirement, slot, position)) <= walk.unvisited()
            * walk.visit() + walk.visit() - 2 - position,
{
    lemma_seen_bounded(walk);
    lemma_positions_within(
        constraint_labels(walk.constraints),
        walk.slots[slot as int].unwrap().name,
    );
    crate::index::lemma_positions_count(
        constraint_labels(walk.constraints),
        walk.slots[slot as int].unwrap().name,
    );
    if position >= walk.registered(slot).len() && walk.slots[slot as int].unwrap().metadata
        is Some {
        lemma_dependency_listed(walk.slots, slot as int);
        lemma_expand_steps(walk, requirement, slot, 0);
    }
}

/// Every step of an orderly walk leaves fewer steps, whatever the answer,
/// and the walk goes on orderly.
pub proof fn lemma_step_shortens(paused: Paused, yes: bool)
    requires
        paused.walk.orderly(),
        paused.sound(),
    ensures
        goes_on_orderly(paused.next(yes)),
        0 <= steps_left(paused.next(yes)) < steps_left(Outcome::Ask { paused }),
{
    let walk = paused.walk;
    lemma_seen_bounded(walk);
    match paused.waiting {
        Waiting::Seeding { root } => {
            let after = if yes {
                walk.enqueue(walk.roots[root])
            } else {
                walk
            };
            assert(walk.universe()[root] == walk.roots[root]);
            lemma_enqueue_orderly(walk, walk.roots[root]);
            lemma_seen_bounded(after);
            lemma_times(walk.unvisited(), walk.visit());
            if !(root + 1 < walk.roots.len()) {
                lemma_pop_steps(after);
            }
        },
        Waiting::Source { requirement, slot } => {
            if yes {
                lemma_constrain_steps(walk, requirement, slot, 0);
            }
        },
        Waiting::Constraint { requirement, slot, position } => {
            crate::index::lemma_positions_count(
                constraint_labels(walk.constraints),
                walk.slots[slot as int].unwrap().name,
            );
            if yes {
                lemma_constrain_steps(walk, requirement, slot, position + 1);
            }
        },
        Waiting::Dependency { requirement, slot, position } => {
            let wanted = walk.dependencies(slot)[position].requirement();
            let after = if yes {
                walk.enqueue(wanted)
            } else {
                walk
            };
            lemma_dependency_listed(walk.slots, slot as int);
            let listed = dependency_requirements(walk.slots);
            let i = choose|i: int| 0 <= i < listed.len() && listed[i] == wanted;
            assert(walk.universe()[walk.roots.len() + i] == wanted);
            lemma_enqueue_orderly(walk, wanted);
            assert(after.dependencies(slot) == walk.dependencies(slot));
            lemma_expand_steps(after, requirement, slot, position + 1);
        },
    }
}

/// An orderly walk ends within the steps it has left.
proof fn lemma_run_ends(outcome: Outcome, oracle: spec_fn(QuestionView) -> bool, fuel: nat)
    requires
        goes_on_orderly(outcome),
        steps_left(outcome) <= fuel,
    ensures
        run(outcome, oracle, fuel) is Some,
    decreases fuel,
{
    match outcome {
        Outcome::Done(_) => {},
        Outcome::Ask { paused } => {
            let yes = oracle(paused.question());
            lemma_step_shortens(paused, yes);
            lemma_run_ends(paused.next(yes), oracle, (fuel - 1) as nat);
        },
    }
}

/// The steps within which every walk over these slots, requirements and
/// constraints is over.
pub open spec fn enough(
    slots: Seq<Option<DistView>>,
    roots: Seq<RequirementView>,
    constraints: Seq<RequirementView>,
) -> nat {
    let declared = dependency_requirements(slots).len();
    ((roots.len() + declared + 1) * (constraints.len() + declared + 3) + roots.len()) as nat
}

/// Every walk ends. Whatever the answers, and however the dependencies
/// loop, a walk is over within a number of steps that depends only on how
/// many requirements and constraints are given and how many dependencies
/// the installed distributions declare.
pub proof fn theorem_walk_ends(
    slots: Seq<Option<DistView>>,
    roots: Seq<RequirementView>,
    constraints: Seq<RequirementView>,
    oracle: spec_fn(QuestionView) -> bool,
)
    requires
        slots.len() <= usize::MAX,
        constraints.len() <= usize::MAX,
    ensures
        run(begin(slots, roots, constraints), oracle, enough(slots, roots, constraints)) is Some,
{
    let start = Walk { slots, roots, constraints, stack: Seq::empty(), seen: Seq::empty() };
    let declared = dependency_requirements(slots).len();
    assert(0 <= (roots.len() + declared + 1) * (constraints.len() + declared + 3))
        by (nonlinear_arith);
    if roots.len() > 0 {
        assert(start.orderly());
    }
    lemma_run_ends(begin(slots, roots, constraints), oracle, enough(slots, roots, constraints));
}

/// No walk ends fresh past a given requirement that applies and is not
/// satisfied: one that no installed distribution could meet, or more than
/// one, or whose candidate comes from another source, fails a constraint
/// registered for its name, whatever the requirement itself accepts, or has
/// metadata that cannot be read.
pub proof fn law_unmet_requirement_denies_fresh(
    slots: Seq<Option<DistView>>,
    roots: Seq<RequirementView>,
    constraints: Seq<RequirementView>,
    oracle: spec_fn(QuestionView) -> bool,
    fuel: nat,
    number: int,
)
    requires
        slots.len() <= usize::MAX,
        constraints.len() <= usize::MAX,
        0 <= number < roots.len(),
        oracle(QuestionView::Applies { requirement: roots[number], extras: Seq::empty() }),
        (Walk { slots, roots, constraints, stack: Seq::empty(), seen: Seq::empty() }).failed(
            oracle,
            roots[number],
        ),
    ensures
        !(run(begin(slots, roots, constraints), oracle, fuel) matches Some(
            Verdict::Fresh(_),
        )),
{
    let start = Walk { slots, roots, constraints, stack: Seq::empty(), seen: Seq::empty() };
    theorem_verdict(slots, roots, constraints, oracle, fuel);
    if let Some(Verdict::Fresh(seen)) = run(begin(slots, roots, constraints), oracle, fuel) {
        let ended = Walk { seen, stack: Seq::empty(), ..start };
        let requirement = roots[number];
        assert(ended.asked_for(oracle, number));
        assert(ended.seen.contains(requirement));
        let at = choose|at: int| 0 <= at < ended.seen.len() && ended.seen[at] == requirement;
        assert(ended.settled(oracle, ended.seen[at]));
        let found = ended.candidates(requirement);
        assert(found == start.candidates(requirement));
        let slot = found[0];
        assert(ended.registered(slot) == start.registered(slot));
        assert forall|k: int| 0 <= k < start.registered(slot).len() implies oracle(
            QuestionView::Matches {
                distribution: slot,
                requirement: #[trigger] start.constraints[start.registered(slot)[k] as int],
            },
        ) by {
            assert(ended.constraints[ended.registered(slot)[k] as int]
                == start.constraints[start.registered(slot)[k] as int]);
        }
    }
}

/// The walk stands at the beginning of a visit to `requirement`: it asks
/// whether the one candidate comes from the source the requirement demands.
pub open spec fn begins_visit(outcome: Outcome, requirement: RequirementView) -> bool {
    match outcome {
        Outcome::Ask { paused } => match paused.waiting {
            Waiting::Source { requirement: visited, slot } => visited == requirement,
            _ => false,
        },
        Outcome::Done(_) => false,
    }
}

/// How often, from where it stands and within `fuel` steps, a walk begins a
/// visit to `requirement`, every question answered by `oracle`.
pub open spec fn visits(
    outcome: Outcome,
    oracle: spec_fn(QuestionView) -> bool,
    fuel: nat,
    requirement: RequirementView,
) -> nat
    decreases fuel,
{
    match outcome {
        Outcome::Done(_) => 0,
        Outcome::Ask { paused } => {
            let now: nat = if begins_visit(outcome, requirement) {
                1
            } else {
                0
            };
            if fuel == 0 {
                now
            } else {
                now + visits(
                    paused.next(oracle(paused.question())),
                    oracle,
                    (fuel - 1) as nat,
                    requirement,
                )
            }
        },
    }
}

impl Walk {
    /// A visit to `requirement` may still come: it waits on the stack, or it
    /// has not been seen yet.
    pub open spec fn awaits(self, requirement: RequirementView) -> bool {
        self.stack.contains(requirement) || !self.seen.contains(requirement)
    }
}

impl Paused {
    /// The walk after the answer `yes` has been taken in: with the
    /// requirement asked about taken up, if it applies.
    pub open spec fn taken_in(self, yes: bool) -> Walk {
        match self.waiting {
            Waiting::Seeding { root } => if yes {
                self.walk.enqueue(self.walk.roots[root])
            } else {
                self.walk
            },
            Waiting::Dependency { requirement, slot, position } => if yes {
                self.walk.enqueue(self.walk.dependencies(slot)[position].requirement())
            } else {
                self.walk
            },
            _ => self.walk,
        }
    }

    /// The walk is tidy, its question sound, and a requirement whose visit
    /// begins has been seen and waits on the stack no more.
    pub open spec fn singular(self) -> bool {
        &&& self.walk.slots.len() <= usize::MAX
        &&& self.walk.constraints.len() <= usize::MAX
        &&& self.walk.tidy()
        &&& self.sound()
        &&& match self.waiting {
            Waiting::Source { requirement, slot } => self.walk.seen.contains(requirement)
                && !self.walk.stack.contains(requirement),
            _ => true,
        }
    }
}

/// Where a walk can come to stand without anything being taken up: at a
/// question within the visit under way, at the beginning of the visit to the
/// requirement on top of the stack, or at its end.
pub open spec fn lands(walk: Walk, outcome: Outcome) -> bool {
    match outcome {
        Outcome::Ask { paused } => {
            ||| paused.walk == walk && !(paused.waiting is Source)
            ||| {
                &&& walk.stack.len() > 0
                &&& paused.walk == (Walk { stack: walk.stack.drop_last(), ..walk })
                &&& paused.waiting matches Waiting::Source { requirement, slot }
                    && requirement == walk.stack.last()
            }
        },
        Outcome::Done(Verdict::Fresh(seen)) => walk.stack.len() == 0 && seen == walk.seen,
        Outcome::Done(Verdict::Unsatisfied(_)) => true,
    }
}

/// Every step lands from the walk with the answer taken in.
proof fn lemma_step_lands(paused: Paused, yes: bool)
    ensures
        lands(paused.taken_in(yes), paused.next(yes)),
{
}

/// Taking a requirement up changes for no requirement whether its visit may
/// still come, and forgets nothing seen.
proof fn lemma_enqueue_awaits(walk: Walk, taken: RequirementView, requirement: RequirementView)
    requires
        walk.tidy(),
    ensures
        walk.enqueue(taken).awaits(requirement) == walk.awaits(requirement),
        forall|other: RequirementView|
            walk.seen.contains(other) ==> walk.enqueue(taken).seen.contains(other),
{
    let after = walk.enqueue(taken);
    assert forall|other: RequirementView| walk.seen.contains(other) implies after.seen.contains(
        other,
    ) by {
        let i = choose|i: int| 0 <= i < walk.seen.len() && walk.seen[i] == other;
        assert(after.seen[i] == other);
    }
    if !walk.seen.contains(taken) {
        assert(after.seen[walk.seen.len() as int] == taken);
        assert(after.stack[walk.stack.len() as int] == taken);
        if walk.stack.contains(requirement) {
            let i = choose|i: int| 0 <= i < walk.stack.len() && walk.stack[i] == requirement;
            assert(after.stack[i] == requirement);
        }
        if after.stack.contains(requirement) && requirement != taken {
            let i = choose|i: int| 0 <= i < after.stack.len() && after.stack[i] == requirement;
            assert(walk.stack[i] == requirement);
        }
        if after.seen.contains(requirement) && requirement != taken {
            let i = choose|i: int| 0 <= i < after.seen.len() && after.seen[i] == requirement;
            assert(walk.seen[i] == requirement);
        }
        if requirement == taken {
            assert(!walk.stack.contains(requirement)) by {
                if walk.stack.contains(requirement) {
                    let i = choose|i: int|
                        0 <= i < walk.stack.len() && walk.stack[i] == requirement;
                    assert(walk.seen.contains(walk.stack[i]));
                }
            }
        }
    }
}

/// Where a tidy walk lands, a visit either begins or may still come exactly
/// if it might before, never both; and nothing seen is forgotten.
proof fn lemma_landing(walk: Walk, outcome: Outcome, requirement: RequirementView)
    requires
        walk.tidy(),
        lands(walk, outcome),
    ensures
        match outcome {
            Outcome::Ask { paused } => {
                &&& (begins_visit(outcome, requirement) || paused.walk.awaits(requirement))
                    == walk.awaits(requirement)
                &&& !(begins_visit(outcome, requirement) && paused.walk.awaits(requirement))
                &&& paused.walk.seen == walk.seen
                &&& paused.waiting matches Waiting::Source { requirement: visited, slot }
                    ==> paused.walk.seen.contains(visited) && !paused.walk.stack.contains(visited)
            },
            Outcome::Done(Verdict::Fresh(seen)) => seen == walk.seen && walk.awaits(requirement)
                == !seen.contains(requirement),
            Outcome::Done(Verdict::Unsatisfied(_)) => true,
        },
{
    match outcome {
        Outcome::Ask { paused } => {
            if paused.waiting is Source {
                let top = walk.stack.last();
                let rest = paused.walk;
                assert(walk.seen.contains(top));
                assert(!rest.stack.contains(top)) by {
                    if rest.stack.contains(top) {
                        let i = choose|i: int| 0 <= i < rest.stack.len() && rest.stack[i] == top;
                        assert(walk.stack[i] == walk.stack[walk.stack.len() - 1]);
                    }
                }
                if walk.stack.contains(requirement) && requirement != top {
                    let i = choose|i: int|
                        0 <= i < walk.stack.len() && walk.stack[i] == requirement;
                    assert(rest.stack[i] == requirement);
                }
                if rest.stack.contains(requirement) {
                    let i = choose|i: int|
                        0 <= i < rest.stack.len() && rest.stack[i] == requirement;
                    assert(walk.stack[i] == requirement);
                }
            }
        },
        Outcome::Done(Verdict::Fresh(seen)) => {
            assert(!walk.stack.contains(requirement));
        },
        Outcome::Done(Verdict::Unsatisfied(_)) => {},
    }
}

/// What one step does to the visits that may still come. After a step of a
/// singular walk, a visit to a requirement begins or may still come exactly
/// if it might still come before the step, and never both; the walk is
/// singular still and has forgotten nothing seen.
proof fn lemma_step_singular(paused: Paused, yes: bool, requirement: RequirementView)
    requires
        paused.singular(),
    ensures
        match paused.next(yes) {
            Outcome::Ask { paused: next } => {
                &&& next.singular()
                &&& (begins_visit(paused.next(yes), requirement) || next.walk.awaits(requirement))
                    == paused.walk.awaits(requirement)
                &&& !(begins_visit(paused.next(yes), requirement) && next.walk.awaits(
                    requirement,
                ))
                &&& forall|other: RequirementView|
                    paused.walk.seen.contains(other) ==> next.walk.seen.contains(other)
            },
            Outcome::Done(Verdict::Fresh(seen)) => {
                &&& paused.walk.awaits(requirement) == !seen.contains(requirement)
                &&& forall|other: RequirementView|
                    paused.walk.seen.contains(other) ==> seen.contains(other)
            },
            Outcome::Done(Verdict::Unsatisfied(_)) => true,
        },
        begins_visit(Outcome::Ask { paused }, requirement) ==> !paused.walk.awaits(requirement),
{
    let walk = paused.walk;
    let taken = paused.taken_in(yes);
    law_stays_tidy(paused, yes);
    lemma_step_lands(paused, yes);
    match paused.waiting {
        Waiting::Seeding { root } => {
            lemma_enqueue_tidy(walk, walk.roots[root]);
            lemma_enqueue_awaits(walk, walk.roots[root], requirement);
        },
        Waiting::Dependency { requirement: visited, slot, position } => {
            let wanted = walk.dependencies(slot)[position].requirement();
            lemma_enqueue_tidy(walk, wanted);
            lemma_enqueue_awaits(walk, wanted, requirement);
        },
        _ => {},
    }
    lemma_landing(taken, paused.next(yes), requirement);
}

/// From where a singular walk stands, a requirement is visited at most once
/// more, and not at all unless its visit begins or may still come.
proof fn lemma_visits_bounded(
    paused: Paused,
    oracle: spec_fn(QuestionView) -> bool,
    fuel: nat,
    requirement: RequirementView,
)
    requires
        paused.singular(),
    ensures
        visits(Outcome::Ask { paused }, oracle, fuel, requirement) <= 1,
        !begins_visit(Outcome::Ask { paused }, requirement) && !paused.walk.awaits(requirement)
            ==> visits(Outcome::Ask { paused }, oracle, fuel, requirement) == 0,
    decreases fuel,
{
    let yes = oracle(paused.question());
    let here = Outcome::Ask { paused };
    let next = paused.next(yes);
    let now: nat = if begins_visit(here, requirement) {
        1
    } else {
        0
    };
    lemma_step_singular(paused, yes, requirement);
    if fuel == 0 {
        assert(visits(here, oracle, fuel, requirement) == now);
    } else {
        let less = (fuel - 1) as nat;
        assert(visits(here, oracle, fuel, requirement) == now + visits(
            next,
            oracle,
            less,
            requirement,
        ));
        match next {
            Outcome::Ask { paused: further } => {
                lemma_visits_bounded(further, oracle, less, requirement);
            },
            Outcome::Done(_) => {
                assert(visits(next, oracle, less, requirement) == 0);
            },
        }
    }
}

/// From where a singular walk stands, if it goes on to end fresh, a
/// requirement is visited exactly once more if its visit begins, or may
/// still come and the requirement is listed in the end; and everything seen
/// so far is listed in the end.
proof fn lemma_visits_exact(
    paused: Paused,
    oracle: spec_fn(QuestionView) -> bool,
    fuel: nat,
    requirement: RequirementView,
    listed: Seq<RequirementView>,
)
    requires
        paused.singular(),
        run(Outcome::Ask { paused }, oracle, fuel) == Some(Verdict::Fresh(listed)),
    ensures
        visits(Outcome::Ask { paused }, oracle, fuel, requirement) == if begins_visit(
            Outcome::Ask { paused },
            requirement,
        ) || (paused.walk.awaits(requirement) && listed.contains(requirement)) {
            1nat
        } else {
            0nat
        },
        forall|other: RequirementView| paused.walk.seen.contains(other) ==> listed.contains(other),
    decreases fuel,
{
    let yes = oracle(paused.question());
    let here = Outcome::Ask { paused };
    let next = paused.next(yes);
    let now: nat = if begins_visit(here, requirement) {
        1
    } else {
        0
    };
    lemma_step_singular(paused, yes, requirement);
    assert(fuel > 0);
    let less = (fuel - 1) as nat;
    assert(run(here, oracle, fuel) == run(next, oracle, less));
    assert(visits(here, oracle, fuel, requirement) == now + visits(
        next,
        oracle,
        less,
        requirement,
    ));
    match next {
        Outcome::Ask { paused: further } => {
            lemma_visits_exact(further, oracle, less, requirement, listed);
            lemma_visits_bounded(further, oracle, less, requirement);
            if begins_visit(next, requirement) {
                assert(further.walk.seen.contains(requirement));
            }
        },
        Outcome::Done(_) => {
            assert(visits(next, oracle, less, requirement) == 0);
            assert(next == Outcome::Done(Verdict::Fresh(listed)));
        },
    }
}

/// Every requirement is visited at most once. Run a walk from its beginning,
/// whatever the oracle, the constraints and the number of steps: the source
/// of a candidate is asked about at most once for each requirement. If the
/// walk ends fresh, each requirement it lists was visited exactly once, and
/// no other requirement was visited.
pub proof fn theorem_visited_once(
    slots: Seq<Option<DistView>>,
    roots: Seq<RequirementView>,
    constraints: Seq<RequirementView>,
    oracle: spec_fn(QuestionView) -> bool,
    fuel: nat,
    requirement: RequirementView,
)
    requires
        slots.len() <= usize::MAX,
        constraints.len() <= usize::MAX,
    ensures
        visits(begin(slots, roots, constraints), oracle, fuel, requirement) <= 1,
        run(begin(slots, roots, constraints), oracle, fuel) matches Some(Verdict::Fresh(listed))
            ==> visits(begin(slots, roots, constraints), oracle, fuel, requirement) == if listed.contains(
            requirement,
        ) {
            1nat
        } else {
            0nat
        },
{
    let start = Walk { slots, roots, constraints, stack: Seq::empty(), seen: Seq::empty() };
    if roots.len() > 0 {
        let paused = Paused { walk: start, waiting: Waiting::Seeding { root: 0 } };
        assert(paused.singular());
        lemma_visits_bounded(paused, oracle, fuel, requirement);
        if let Some(Verdict::Fresh(listed)) = run(begin(slots, roots, constraints), oracle, fuel) {
            lemma_visits_exact(paused, oracle, fuel, requirement, listed);
        }
    }
}

} // verus!
