//! An index over the distributions installed in an environment.
//!
//! Distributions sit in numbered slots. A slot is never reused and never
//! moves: removing a distribution empties its slot and leaves every other
//! slot where it was. Two hash indices, by package name and by source URL,
//! list the slots filed under each key. The index is built from what a scan
//! of the environment found: see [`crate::scan`].
use crate::distribution::DistView;
use crate::distribution::InstalledDist;
use crate::distribution::Interpreter;
use crate::index::catalogues;
use crate::index::entries;
use crate::index::filed;
use crate::index::index_append;
use crate::index::index_copy;
use crate::index::index_get;
use crate::index::index_new;
use crate::index::lemma_catalogues_next;
use crate::index::lemma_positions_complete;
use crate::index::lemma_positions_within;
use crate::index::positions;
use crate::index::Index;
use crate::scan::dangling;
use crate::scan::fatal;
use crate::scan::installed;
use crate::scan::is_dangling;
use crate::scan::stops_at;
use crate::scan::Probed;
use crate::scan::ProbedView;
use crate::scan::Recorded;
use crate::scan::ScanError;
use vstd::prelude::*;

verus! {

/// For each slot, the package name of the distribution in it, if any.
pub open spec fn name_labels(slots: Seq<Option<DistView>>) -> Seq<Option<Seq<char>>> {
    Seq::new(
        slots.len(),
        |i: int|
            match slots[i] {
                Some(dist) => Some(dist.name),
                None => None,
            },
    )
}

/// For each slot, the source URL of the distribution in it, if it has one.
pub open spec fn url_labels(slots: Seq<Option<DistView>>) -> Seq<Option<Seq<char>>> {
    Seq::new(
        slots.len(),
        |i: int|
            match slots[i] {
                Some(dist) => dist.url,
                None => None,
            },
    )
}

/// The slots that hold a distribution called `name`, in increasing order.
pub open spec fn named(slots: Seq<Option<DistView>>, name: Seq<char>) -> Seq<usize> {
    positions(name_labels(slots), name)
}

/// The slots that hold a distribution installed from `url`, in increasing
/// order.
pub open spec fn sourced(slots: Seq<Option<DistView>>, url: Seq<char>) -> Seq<usize> {
    positions(url_labels(slots), url)
}

/// The slots that hold any distribution, in increasing order.
pub open spec fn occupied(slots: Seq<Option<DistView>>) -> Seq<usize>
    decreases slots.len(),
{
    if slots.len() == 0 {
        Seq::empty()
    } else {
        let before = occupied(slots.drop_last());
        if slots.last() is Some {
            before.push((slots.len() - 1) as usize)
        } else {
            before
        }
    }
}

/// The distributions in the listed slots, in the order listed.
pub open spec fn distributions_at(slots: Seq<Option<DistView>>, listed: Seq<usize>) -> Seq<
    DistView,
> {
    Seq::new(listed.len(), |k: int| slots[listed[k] as int].unwrap())
}

/// Those of the listed slots that hold a distribution, in the order listed.
pub open spec fn live_among(slots: Seq<Option<DistView>>, listed: Seq<usize>) -> Seq<usize>
    decreases listed.len(),
{
    if listed.len() == 0 {
        Seq::empty()
    } else {
        let before = live_among(slots, listed.drop_last());
        let last = listed.last();
        if last < slots.len() && slots[last as int] is Some {
            before.push(last)
        } else {
            before
        }
    }
}

/// The two indices agree with the slots: each slot was filed under a name
/// and possibly a URL, a slot that still holds a distribution holds one of
/// that name and URL, and each index lists exactly the slots filed under
/// each key.
pub open spec fn coherent(
    slots: Seq<Option<DistView>>,
    by_name: Map<Seq<char>, Seq<usize>>,
    by_url: Map<Seq<char>, Seq<usize>>,
    names: Seq<Option<Seq<char>>>,
    urls: Seq<Option<Seq<char>>>,
) -> bool {
    &&& names.len() == slots.len()
    &&& urls.len() == slots.len()
    &&& forall|i: int|
        0 <= i < slots.len() && (#[trigger] slots[i]) is Some ==> names[i] == Some(
            slots[i].unwrap().name,
        ) && urls[i] == slots[i].unwrap().url
    &&& catalogues(by_name, names)
    &&& catalogues(by_url, urls)
}

/// Among the slots once filed under a key, those still occupied are the
/// slots that now hold a distribution with that key.
pub proof fn lemma_live_filed(
    slots: Seq<Option<DistView>>,
    labels: Seq<Option<Seq<char>>>,
    filed_as: Seq<Option<Seq<char>>>,
    key: Seq<char>,
)
    requires
        slots.len() <= usize::MAX,
        labels.len() == slots.len(),
        filed_as.len() == slots.len(),
        forall|i: int| 0 <= i < slots.len() && slots[i] is None ==> labels[i] is None,
        forall|i: int| 0 <= i < slots.len() && slots[i] is Some ==> labels[i] == filed_as[i],
    ensures
        live_among(slots, positions(filed_as, key)) == positions(labels, key),
    decreases slots.len(),
{
    if slots.len() > 0 {
        let n = slots.len() - 1;
        lemma_live_filed(slots.drop_last(), labels.drop_last(), filed_as.drop_last(), key);
        let earlier = positions(filed_as.drop_last(), key);
        lemma_positions_within(filed_as.drop_last(), key);
        lemma_live_among_prefix(slots, earlier);
        if filed_as.last() == Some(key) {
            assert(earlier.push(n as usize).drop_last() =~= earlier);
        }
    }
}

/// Emptying or filling slots beyond those listed does not change which of
/// the listed slots are occupied.
pub proof fn lemma_live_among_prefix(slots: Seq<Option<DistView>>, listed: Seq<usize>)
    requires
        slots.len() > 0,
        forall|k: int| 0 <= k < listed.len() ==> listed[k] < slots.len() - 1,
    ensures
        live_among(slots, listed) == live_among(slots.drop_last(), listed),
    decreases listed.len(),
{
    if listed.len() > 0 {
        lemma_live_among_prefix(slots, listed.drop_last());
    }
}

/// The occupied slots are listed in increasing order, each lies inside the
/// slots and holds a distribution.
pub proof fn lemma_occupied_live(slots: Seq<Option<DistView>>)
    requires
        slots.len() <= usize::MAX,
    ensures
        forall|k: int|
            0 <= k < occupied(slots).len() ==> (#[trigger] occupied(slots)[k]) < slots.len()
                && slots[occupied(slots)[k] as int] is Some,
    decreases slots.len(),
{
    if slots.len() > 0 {
        lemma_occupied_live(slots.drop_last());
    }
}

/// The package names of the distributions in the slots.
pub open spec fn names_of(slots: Seq<Option<DistView>>) -> Set<Seq<char>> {
    Set::new(|name: Seq<char>| name_labels(slots).contains(Some(name)))
}

/// A new slot adds the name of its distribution to the names in the slots.
pub proof fn lemma_names_of_push(slots: Seq<Option<DistView>>, dist: DistView)
    ensures
        names_of(slots.push(Some(dist))) == names_of(slots).insert(dist.name),
{
    let longer = slots.push(Some(dist));
    assert forall|name: Seq<char>|
        names_of(longer).contains(name) == names_of(slots).insert(dist.name).contains(name) by {
        if names_of(longer).contains(name) {
            let i = choose|i: int|
                0 <= i < name_labels(longer).len() && name_labels(longer)[i] == Some(name);
            if i < slots.len() {
                assert(name_labels(slots)[i] == Some(name));
            }
        }
        if names_of(slots).contains(name) {
            let i = choose|i: int|
                0 <= i < name_labels(slots).len() && name_labels(slots)[i] == Some(name);
            assert(name_labels(longer)[i] == Some(name));
        }
        if name == dist.name {
            assert(name_labels(longer)[slots.len() as int] == Some(name));
        }
    }
    assert(names_of(longer) =~= names_of(slots).insert(dist.name));
}

/// The slots with every distribution called `name` taken out.
pub open spec fn without(slots: Seq<Option<DistView>>, name: Seq<char>) -> Seq<Option<DistView>> {
    Seq::new(
        slots.len(),
        |i: int|
            match slots[i] {
                Some(dist) => if dist.name == name {
                    None
                } else {
                    slots[i]
                },
                None => None,
            },
    )
}

/// Empties the listed slots and hands back what they held.
fn vacate(distributions: &mut Vec<Option<InstalledDist>>, listed: &Vec<usize>) -> (removed: Vec<
    InstalledDist,
>)
    requires
        forall|k: int|
            0 <= k < listed.len() ==> listed[k] < old(distributions).len() && old(
                distributions,
            )[listed[k] as int] is Some,
        forall|j: int, k: int| 0 <= j < k < listed.len() ==> listed[j] < listed[k],
    ensures
        removed.deep_view() == distributions_at(old(distributions).deep_view(), listed@),
        final(distributions).len() == old(distributions).len(),
        forall|i: int|
            0 <= i < old(distributions).len() ==> final(distributions).deep_view()[i] == if listed@.contains(
                i as usize,
            ) {
                None
            } else {
                old(distributions).deep_view()[i]
            },
{
    let mut removed: Vec<InstalledDist> = Vec::new();
    let ghost before = distributions.deep_view();
    let mut k: usize = 0;
    while k < listed.len()
        invariant
            k <= listed.len(),
            removed.len() == k,
            before == old(distributions).deep_view(),
            distributions.len() == before.len(),
            forall|j: int|
                0 <= j < listed.len() ==> listed[j] < before.len() && before[listed[j] as int] is Some,
            forall|i: int, j: int| 0 <= i < j < listed.len() ==> listed[i] < listed[j],
            forall|j: int| 0 <= j < k ==> removed[j]@ == before[listed[j] as int].unwrap(),
            forall|i: int|
                0 <= i < before.len() ==> distributions.deep_view()[i] == if listed@.take(
                    k as int,
                ).contains(i as usize) {
                    None
                } else {
                    before[i]
                },
        decreases listed.len() - k,
    {
        let slot = listed[k];
        let ghost earlier = distributions.deep_view();
        proof {
            assert(!listed@.take(k as int).contains(slot));
            assert(earlier[slot as int] == before[slot as int]);
        }
        let mut taken: Option<InstalledDist> = None;
        std::mem::swap(&mut taken, &mut distributions[slot]);
        match taken {
            Some(dist) => {
                removed.push(dist);
            },
            None => {},
        }
        proof {
            assert(listed@.take(k + 1) =~= listed@.take(k as int).push(slot));
            assert forall|i: int| 0 <= i < before.len() implies distributions.deep_view()[i]
                == if listed@.take(k + 1).contains(i as usize) {
                None
            } else {
                before[i]
            } by {
                assert(earlier[i] == if listed@.take(k as int).contains(i as usize) {
                    None
                } else {
                    before[i]
                });
                if i == slot {
                    assert(listed@.take(k + 1)[k as int] == slot);
                }
            }
        }
        k += 1;
    }
    proof {
        assert(listed@.take(k as int) =~= listed@);
        assert(removed.deep_view() =~= distributions_at(before, listed@));
    }
    removed
}

/// An environment in which no probe found a distribution has an index
/// without slots: nothing is installed and the enumeration is empty.
pub proof fn law_nothing_installed(probed: Seq<ProbedView>)
    requires
        forall|i: int| 0 <= i < probed.len() ==> !(probed[i] is Distribution),
    ensures
        installed(probed) == Seq::<Option<DistView>>::empty(),
        !exists|i: int| 0 <= i < installed(probed).len() && installed(probed)[i] is Some,
        distributions_at(installed(probed), occupied(installed(probed))) == Seq::<
            DistView,
        >::empty(),
    decreases probed.len(),
{
    if probed.len() > 0 {
        law_nothing_installed(probed.drop_last());
    }
    assert(distributions_at(Seq::<Option<DistView>>::empty(), Seq::<usize>::empty())
        =~= Seq::<DistView>::empty());
}

/// After a package is removed, no distribution of its name is found or
/// enumerated, every slot of another package holds what it held, and the
/// distributions found under any other name are the same as before.
pub proof fn law_removal(slots: Seq<Option<DistView>>, name: Seq<char>, other: Seq<char>)
    requires
        slots.len() <= usize::MAX,
        other != name,
    ensures
        named(without(slots, name), name) == Seq::<usize>::empty(),
        forall|k: int|
            0 <= k < occupied(without(slots, name)).len() ==> without(slots, name)[(
            #[trigger] occupied(without(slots, name))[k]) as int].unwrap().name != name,
        forall|i: int|
            0 <= i < slots.len() && slots[i] is Some && slots[i].unwrap().name != name
                ==> #[trigger] without(slots, name)[i] == slots[i],
        named(without(slots, name), other) == named(slots, other),
        distributions_at(without(slots, name), named(without(slots, name), other))
            == distributions_at(slots, named(slots, other)),
{
    let after = without(slots, name);
    crate::index::lemma_positions_absent(name_labels(after), name);
    lemma_occupied_live(after);
    crate::index::lemma_positions_agree(name_labels(after), name_labels(slots), other);
    lemma_positions_within(name_labels(slots), other);
    assert(distributions_at(after, named(after, other)) =~= distributions_at(
        slots,
        named(slots, other),
    ));
}

/// An index over the distributions installed in an environment.
pub struct InstalledPackages {
    interpreter: Interpreter,
    /// The slots. An empty slot is a distribution that was removed.
    distributions: Vec<Option<InstalledDist>>,
    /// For each package name, the slots filed under it.
    by_name: Index,
    /// For each source URL, the slots filed under it.
    by_url: Index,
    /// The name each slot was filed under.
    names: Ghost<Seq<Option<Seq<char>>>>,
    /// The URL each slot was filed under, if any.
    urls: Ghost<Seq<Option<Seq<char>>>>,
}

impl View for InstalledPackages {
    type V = Seq<Option<DistView>>;

    /// The slots, each empty or holding a distribution.
    closed spec fn view(&self) -> Seq<Option<DistView>> {
        self.distributions.deep_view()
    }
}

impl Clone for InstalledPackages {
    /// A copy of the index, with the same slots. Removing from one leaves
    /// the other as it was.
    fn clone(&self) -> (copy: InstalledPackages)
        ensures
            copy@ == self@,
            copy.spec_interpreter()@ == self.spec_interpreter()@,
            copy.recorded_names() == self.recorded_names(),
            self.wf() ==> copy.wf(),
    {
        let mut distributions: Vec<Option<InstalledDist>> = Vec::new();
        let mut i: usize = 0;
        while i < self.distributions.len()
            invariant
                i <= self.distributions.len(),
                distributions.len() == i,
                forall|j: int|
                    0 <= j < i ==> distributions[j].deep_view() == self.distributions[j].deep_view(),
            decreases self.distributions.len() - i,
        {
            let slot = match &self.distributions[i] {
                Some(dist) => Some(dist.copy()),
                None => None,
            };
            distributions.push(slot);
            i += 1;
        }
        proof {
            assert(distributions.deep_view() =~= self.distributions.deep_view());
        }
        InstalledPackages {
            interpreter: self.interpreter.copy(),
            distributions,
            by_name: index_copy(&self.by_name),
            by_url: index_copy(&self.by_url),
            names: self.names,
            urls: self.urls,
        }
    }
}

/// Puts a distribution into a new slot and files the slot in both indices.
fn file(
    distributions: &mut Vec<Option<InstalledDist>>,
    by_name: &mut Index,
    by_url: &mut Index,
    names: &mut Ghost<Seq<Option<Seq<char>>>>,
    urls: &mut Ghost<Seq<Option<Seq<char>>>>,
    dist: InstalledDist,
) -> (slot: usize)
    requires
        coherent(
            old(distributions).deep_view(),
            entries(*old(by_name)),
            entries(*old(by_url)),
            old(names)@,
            old(urls)@,
        ),
    ensures
        slot == old(distributions).len(),
        final(distributions).deep_view() == old(distributions).deep_view().push(Some(dist@)),
        entries(*final(by_name)).dom() == entries(*old(by_name)).dom().insert(dist.name@),
        coherent(
            final(distributions).deep_view(),
            entries(*final(by_name)),
            entries(*final(by_url)),
            final(names)@,
            final(urls)@,
        ),
{
    let slot = distributions.len();
    proof {
        lemma_catalogues_next(entries(*by_name), names@, Some(dist.name@));
        lemma_catalogues_next(entries(*by_url), urls@, dist.url.deep_view());
    }
    index_append(by_name, dist.name.clone(), slot);
    match &dist.url {
        Some(url) => {
            index_append(by_url, url.clone(), slot);
        },
        None => {},
    }
    proof {
        *names = Ghost(names@.push(Some(dist.name@)));
        *urls = Ghost(urls@.push(dist.url.deep_view()));
    }
    let ghost before = distributions.deep_view();
    distributions.push(Some(dist));
    proof {
        assert(distributions.deep_view() =~= before.push(Some(dist@)));
        assert(entries(*by_name).dom() =~= entries(*old(by_name)).dom().insert(dist.name@));
    }
    slot
}

/// Those of the slots filed under `key` that still hold a distribution.
fn live_under(distributions: &Vec<Option<InstalledDist>>, index: &Index, key: &str) -> (live: Vec<
    usize,
>)
    requires
        forall|k: int|
            0 <= k < filed(entries(*index), key@).len() ==> filed(entries(*index), key@)[k]
                < distributions.len(),
    ensures
        live@ == live_among(distributions.deep_view(), filed(entries(*index), key@)),
        forall|k: int|
            0 <= k < live.len() ==> live[k] < distributions.len()
                && distributions[live[k] as int] is Some,
{
    let mut live: Vec<usize> = Vec::new();
    let listed = match index_get(index, key) {
        Some(listed) => listed,
        None => {
            return live;
        },
    };
    let ghost slots = distributions.deep_view();
    assert forall|j: int| 0 <= j < listed.len() implies listed[j] < distributions.len() by {
        assert(listed@[j] == filed(entries(*index), key@)[j]);
    }
    let mut k: usize = 0;
    while k < listed.len()
        invariant
            k <= listed.len(),
            slots == distributions.deep_view(),
            listed@ == filed(entries(*index), key@),
            forall|j: int| 0 <= j < listed.len() ==> listed[j] < distributions.len(),
            live@ == live_among(slots, listed@.take(k as int)),
            forall|j: int|
                0 <= j < live.len() ==> live[j] < distributions.len()
                    && distributions[live[j] as int] is Some,
        decreases listed.len() - k,
    {
        let slot = listed[k];
        proof {
            assert(listed@.take(k + 1).drop_last() =~= listed@.take(k as int));
            assert(slots[slot as int] is Some == distributions[slot as int] is Some);
        }
        if distributions[slot].is_some() {
            live.push(slot);
        }
        k += 1;
    }
    proof {
        assert(listed@.take(k as int) =~= listed@);
    }
    live
}

/// The distributions in the given occupied slots.
fn resolve<'a>(distributions: &'a Vec<Option<InstalledDist>>, slots: &Vec<usize>) -> (found: Vec<
    &'a InstalledDist,
>)
    requires
        forall|k: int|
            0 <= k < slots.len() ==> slots[k] < distributions.len()
                && distributions[slots[k] as int] is Some,
    ensures
        found.deep_view() == distributions_at(distributions.deep_view(), slots@),
{
    let mut found: Vec<&'a InstalledDist> = Vec::new();
    let mut k: usize = 0;
    while k < slots.len()
        invariant
            k <= slots.len(),
            found.len() == k,
            forall|j: int|
                0 <= j < slots.len() ==> slots[j] < distributions.len()
                    && distributions[slots[j] as int] is Some,
            forall|j: int| 0 <= j < k ==> found[j]@ == distributions[slots[j] as int].unwrap()@,
        decreases slots.len() - k,
    {
        match &distributions[slots[k]] {
            Some(dist) => {
                found.push(dist);
            },
            None => {},
        }
        k += 1;
    }
    assert(found.deep_view() =~= distributions_at(distributions.deep_view(), slots@));
    found
}

impl InstalledPackages {
    /// The two indices agree with the slots. Every index the library hands
    /// out is well formed, and every operation keeps it so.
    pub closed spec fn wf(&self) -> bool {
        coherent(
            self.distributions.deep_view(),
            entries(self.by_name),
            entries(self.by_url),
            self.names@,
            self.urls@,
        )
    }

    /// The name of every installed distribution is on record: a name under
    /// which something is found installed is among the recorded names.
    pub proof fn lemma_installed_recorded(&self, name: Seq<char>)
        requires
            self.wf(),
            named(self@, name).len() > 0,
        ensures
            self.recorded_names().contains(name),
    {
        assert(self@.len() == self.distributions.len());
        lemma_positions_within(name_labels(self@), name);
        let slot = named(self@, name)[0] as int;
        assert(self@[slot] is Some);
        lemma_positions_complete(self.names@, name, slot);
        assert(filed(entries(self.by_name), name) == positions(self.names@, name));
    }

    /// The slots of an index can be numbered by machine integers.
    pub proof fn lemma_slots_countable(&self)
        ensures
            self@.len() <= usize::MAX,
    {
        assert(self@.len() == self.distributions.len());
    }

    /// The interpreter whose environment the index describes.
    pub closed spec fn spec_interpreter(&self) -> Interpreter {
        self.interpreter
    }

    /// Every package name some slot was ever filed under, whether or not a
    /// distribution of that name is still installed.
    pub closed spec fn recorded_names(&self) -> Set<Seq<char>> {
        entries(self.by_name).dom()
    }

    /// An index with no slot, for the environment of `interpreter`.
    pub fn new(interpreter: Interpreter) -> (packages: InstalledPackages)
        ensures
            packages.wf(),
            packages@ == Seq::<Option<DistView>>::empty(),
            packages.spec_interpreter() == interpreter,
            packages.recorded_names() == Set::<Seq<char>>::empty(),
    {
        let packages = InstalledPackages {
            interpreter,
            distributions: Vec::new(),
            by_name: index_new(),
            by_url: index_new(),
            names: Ghost(Seq::empty()),
            urls: Ghost(Seq::empty()),
        };
        proof {
            assert(packages.distributions.deep_view() =~= Seq::<Option<DistView>>::empty());
            assert(packages.recorded_names() =~= Set::<Seq<char>>::empty());
        }
        packages
    }

    /// Builds the index of an environment from what probing the candidate
    /// paths of its search directories found, in the order probed.
    ///
    /// The build fails at the first probe that is unreadable and no leftover
    /// temporary directory, with the path of that probe. Otherwise every
    /// distribution found gets a slot, in the order found.
    pub fn from_interpreter(interpreter: Interpreter, probed: Vec<Probed>) -> (built: Result<
        InstalledPackages,
        ScanError,
    >)
        ensures
            match built {
                Ok(packages) => {
                    &&& forall|i: int|
                        0 <= i < probed.len() ==> !fatal(#[trigger] probed.deep_view()[i])
                    &&& packages.wf()
                    &&& packages@ == installed(probed.deep_view())
                    &&& packages.spec_interpreter() == interpreter
                    &&& packages.recorded_names() == names_of(packages@)
                },
                Err(error) => exists|at: int|
                    #![trigger stops_at(probed.deep_view(), at)]
                    stops_at(probed.deep_view(), at) && (probed.deep_view()[at] matches ProbedView::Unreadable {
                        path,
                        ..
                    } && path == error.path@),
            },
    {
        let ghost probes = probed.deep_view();
        let mut remaining = probed;
        let mut packages = InstalledPackages::new(interpreter);
        proof {
            assert(names_of(packages@) =~= Set::<Seq<char>>::empty());
        }
        let mut i: usize = 0;
        while i < remaining.len()
            invariant
                i <= remaining.len(),
                remaining.len() == probes.len(),
                probes == probed.deep_view(),
                forall|j: int| i <= j < remaining.len() ==> remaining[j]@ == probes[j],
                forall|j: int| 0 <= j < i ==> !fatal(#[trigger] probes[j]),
                packages.wf(),
                packages@ == installed(probes.take(i as int)),
                packages.spec_interpreter() == interpreter,
                packages.recorded_names() == names_of(packages@),
            decreases remaining.len() - i,
        {
            let mut probe = Probed::Unrecognized;
            std::mem::swap(&mut probe, &mut remaining[i]);
            proof {
                assert(probe@ == probes[i as int]);
                assert(probes.take(i + 1).drop_last() =~= probes.take(i as int));
                match probe@ {
                    ProbedView::Distribution(dist) => {
                        lemma_names_of_push(packages@, dist);
                    },
                    _ => {},
                }
            }
            match packages.record(probe) {
                Ok(_) => {},
                Err(error) => {
                    proof {
                        assert(stops_at(probes, i as int));
                        assert(probes[i as int] matches ProbedView::Unreadable { path, .. }
                            && path == error.path@);
                    }
                    return Err(error);
                },
            }
            i += 1;
        }
        proof {
            assert(probes.take(i as int) =~= probes);
        }
        Ok(packages)
    }

    /// Every package name some slot was ever filed under, each once. The
    /// order is that of the hash index and is not determined here.
    pub fn names(&self) -> (names: Vec<String>)
        ensures
            names.deep_view().no_duplicates(),
            names.deep_view().to_set() == self.recorded_names(),
    {
        crate::index::index_keys(&self.by_name)
    }

    /// The interpreter whose environment the index describes.
    pub fn interpreter(&self) -> (interpreter: &Interpreter)
        ensures
            *interpreter == self.spec_interpreter(),
    {
        &self.interpreter
    }

    /// Whether any distribution is installed.
    pub fn any(&self) -> (any: bool)
        ensures
            any == exists|i: int| 0 <= i < self@.len() && self@[i] is Some,
    {
        let mut i: usize = 0;
        while i < self.distributions.len()
            invariant
                i <= self.distributions.len(),
                forall|j: int| 0 <= j < i ==> self@[j] is None,
            decreases self.distributions.len() - i,
        {
            if self.distributions[i].is_some() {
                assert(self@[i as int] is Some);
                return true;
            }
            i += 1;
        }
        false
    }

    /// The installed distributions called `name`, in slot order. None when
    /// the name is unknown.
    pub fn get_packages(&self, name: &str) -> (found: Vec<&InstalledDist>)
        requires
            self.wf(),
        ensures
            found.deep_view() == distributions_at(self@, named(self@, name@)),
    {
        let slots = self.named_slots(name);
        resolve(&self.distributions, &slots)
    }

    /// The installed distributions that came from `url`, in slot order. None
    /// when the URL is unknown.
    pub fn get_urls(&self, url: &str) -> (found: Vec<&InstalledDist>)
        requires
            self.wf(),
        ensures
            found.deep_view() == distributions_at(self@, sourced(self@, url@)),
    {
        let slots = self.sourced_slots(url);
        resolve(&self.distributions, &slots)
    }

    /// The slots that hold a distribution called `name`, in increasing order.
    pub fn named_slots(&self, name: &str) -> (slots: Vec<usize>)
        requires
            self.wf(),
        ensures
            slots@ == named(self@, name@),
            forall|k: int|
                0 <= k < slots.len() ==> slots[k] < self@.len() && self@[slots[k] as int] is Some,
    {
        proof {
            assert(self@.len() == self.distributions.len());
            lemma_positions_within(self.names@, name@);
            lemma_live_filed(self@, name_labels(self@), self.names@, name@);
        }
        live_under(&self.distributions, &self.by_name, name)
    }

    /// The slots that hold a distribution installed from `url`, in increasing
    /// order.
    pub fn sourced_slots(&self, url: &str) -> (slots: Vec<usize>)
        requires
            self.wf(),
        ensures
            slots@ == sourced(self@, url@),
            forall|k: int|
                0 <= k < slots.len() ==> slots[k] < self@.len() && self@[slots[k] as int] is Some,
    {
        proof {
            assert(self@.len() == self.distributions.len());
            lemma_positions_within(self.urls@, url@);
            lemma_live_filed(self@, url_labels(self@), self.urls@, url@);
        }
        live_under(&self.distributions, &self.by_url, url)
    }

    /// The installed distributions, in slot order.
    pub fn iter(&self) -> (found: Vec<&InstalledDist>)
        ensures
            found.deep_view() == distributions_at(self@, occupied(self@)),
    {
        let mut slots: Vec<usize> = Vec::new();
        let mut i: usize = 0;
        while i < self.distributions.len()
            invariant
                i <= self.distributions.len(),
                slots@ == occupied(self@.take(i as int)),
                forall|k: int|
                    0 <= k < slots.len() ==> slots[k] < self.distributions.len()
                        && self.distributions[slots[k] as int] is Some,
            decreases self.distributions.len() - i,
        {
            proof {
                assert(self@.take(i + 1).drop_last() =~= self@.take(i as int));
                assert(self@[i as int] is Some == self.distributions[i as int] is Some);
            }
            if self.distributions[i].is_some() {
                slots.push(i);
            }
            i += 1;
        }
        proof {
            assert(self@.take(i as int) =~= self@);
        }
        resolve(&self.distributions, &slots)
    }

    /// Takes every installed distribution called `name` out of the index and
    /// hands them back in slot order. Their slots stay, empty; no other slot
    /// changes.
    pub fn remove_packages(&mut self, name: &str) -> (removed: Vec<InstalledDist>)
        requires
            old(self).wf(),
        ensures
            final(self).wf(),
            removed.deep_view() == distributions_at(old(self)@, named(old(self)@, name@)),
            final(self)@ == without(old(self)@, name@),
            final(self).spec_interpreter() == old(self).spec_interpreter(),
            final(self).recorded_names() == old(self).recorded_names(),
    {
        let listed = self.named_slots(name);
        proof {
            assert(self@.len() == self.distributions.len());
            crate::index::lemma_positions_increasing(name_labels(self@), name@);
        }
        let removed = vacate(&mut self.distributions, &listed);
        proof {
            let before = old(self)@;
            let after = self.distributions.deep_view();
            assert forall|i: int| 0 <= i < before.len() implies after[i] == without(
                before,
                name@,
            )[i] by {
                lemma_positions_within(name_labels(before), name@);
                if before[i] is Some && before[i].unwrap().name == name@ {
                    crate::index::lemma_positions_complete(name_labels(before), name@, i);
                }
            }
            assert(after =~= without(before, name@));
        }
        removed
    }

    /// Takes in the result of probing one path. A distribution gets the next
    /// free slot and is filed under its name and, if it has one, its URL.
    /// Anything else leaves the index as it was: what is no distribution is
    /// skipped, an unreadable leftover of an interrupted installation is
    /// reported as such, and any other unreadable path is an error.
    pub fn record(&mut self, probed: Probed) -> (outcome: Result<Recorded, ScanError>)
        requires
            old(self).wf(),
        ensures
            final(self).wf(),
            final(self).spec_interpreter() == old(self).spec_interpreter(),
            match probed@ {
                ProbedView::Distribution(dist) => {
                    &&& outcome == Ok::<Recorded, ScanError>(
                        Recorded::Indexed(old(self)@.len() as usize),
                    )
                    &&& final(self)@ == old(self)@.push(Some(dist))
                    &&& final(self).recorded_names() == old(self).recorded_names().insert(
                        dist.name,
                    )
                },
                ProbedView::Unrecognized => {
                    &&& outcome == Ok::<Recorded, ScanError>(Recorded::Skipped)
                    &&& final(self)@ == old(self)@
                    &&& final(self).recorded_names() == old(self).recorded_names()
                },
                ProbedView::Unreadable { path, file_name } => {
                    &&& final(self)@ == old(self)@
                    &&& final(self).recorded_names() == old(self).recorded_names()
                    &&& if dangling(file_name) {
                        outcome == Ok::<Recorded, ScanError>(Recorded::Dangling)
                    } else {
                        outcome is Err && outcome->Err_0.path@ == path
                    }
                },
            },
    {
        match probed {
            Probed::Distribution(dist) => {
                let slot = file(
                    &mut self.distributions,
                    &mut self.by_name,
                    &mut self.by_url,
                    &mut self.names,
                    &mut self.urls,
                    dist,
                );
                Ok(Recorded::Indexed(slot))
            },
            Probed::Unrecognized => Ok(Recorded::Skipped),
            Probed::Unreadable { path, file_name } => {
                if is_dangling(&file_name) {
                    Ok(Recorded::Dangling)
                } else {
                    Err(ScanError { path })
                }
            },
        }
    }

    /// The distribution in `slot`, if the slot exists and is occupied.
    pub fn get(&self, slot: usize) -> (dist: Option<&InstalledDist>)
        ensures
            dist.deep_view() == if slot < self@.len() {
                self@[slot as int]
            } else {
                None
            },
    {
        if slot < self.distributions.len() {
            self.distributions[slot].as_ref()
        } else {
            None
        }
    }
}

} // verus!
