//! A hash index from text keys to lists of slot numbers.
//!
//! The table itself is `rustc_hash::FxHashMap`. Verus cannot look inside it,
//! so what it holds is given a name, [`entries`], and every operation the
//! library performs on it is stated over that name. Those statements are
//! believed, not proved.
use rustc_hash::FxBuildHasher;
use rustc_hash::FxHashMap;
use vstd::prelude::*;

verus! {

/// `rustc_hash::FxBuildHasher`, the hasher behind the index. It is carried
/// around and never inspected.
#[verifier::external_type_specification]
#[verifier::external_body]
pub struct ExFxBuildHasher(FxBuildHasher);

/// The index the library keeps: for each key, the slots filed under it.
pub type Index = FxHashMap<String, Vec<usize>>;

/// What an index holds: the keys present, by their text, each with the list
/// of slot numbers stored under it.
pub uninterp spec fn entries(index: Index) -> Map<Seq<char>, Seq<usize>>;

/// `FxHashMap::default`: a fresh table holds no key.
#[verifier::external_body]
pub(crate) fn index_new() -> (index: Index)
    ensures
        forall|key: Seq<char>| !entries(index).contains_key(key),
{
    FxHashMap::default()
}

/// `HashMap::get`: the list stored under the key with this text, or `None`
/// when the table has no such key.
#[verifier::external_body]
pub(crate) fn index_get<'a>(index: &'a Index, key: &str) -> (found: Option<&'a Vec<usize>>)
    ensures
        match found {
            Some(slots) => entries(*index).contains_key(key@) && slots@ == entries(*index)[key@],
            None => !entries(*index).contains_key(key@),
        },
{
    index.get(key)
}

/// `HashMap::remove`: takes the key with this text out of the table and hands
/// back the list that was stored under it, or `None` when there was none.
/// Every other key keeps its list.
#[verifier::external_body]
pub(crate) fn index_remove(index: &mut Index, key: &str) -> (removed: Option<Vec<usize>>)
    ensures
        entries(*final(index)) == entries(*old(index)).remove(key@),
        match removed {
            Some(slots) => entries(*old(index)).contains_key(key@) && slots@ == entries(
                *old(index),
            )[key@],
            None => !entries(*old(index)).contains_key(key@),
        },
{
    index.remove(key)
}

/// `HashMap::insert`: afterwards the key holds the given list, replacing any
/// list it held before. Every other key keeps its list.
#[verifier::external_body]
pub(crate) fn index_insert(index: &mut Index, key: String, slots: Vec<usize>)
    ensures
        entries(*final(index)) == entries(*old(index)).insert(key@, slots@),
{
    index.insert(key, slots);
}

/// `HashMap::clone`: the copy holds the keys the table holds, each with the
/// same list.
#[verifier::external_body]
pub(crate) fn index_copy(index: &Index) -> (copy: Index)
    ensures
        entries(copy) == entries(*index),
{
    index.clone()
}

/// `HashMap::keys`: every key of the table exactly once. The order in which
/// the table hands them out is not determined here.
#[verifier::external_body]
pub(crate) fn index_keys(index: &Index) -> (keys: Vec<String>)
    ensures
        keys.deep_view().no_duplicates(),
        keys.deep_view().to_set() == entries(*index).dom(),
{
    index.keys().cloned().collect()
}

/// Files `slot` under `key`, behind the slots already filed there.
pub(crate) fn index_append(index: &mut Index, key: String, slot: usize)
    ensures
        entries(*final(index)) == entries(*old(index)).insert(
            key@,
            filed(entries(*old(index)), key@).push(slot),
        ),
{
    let mut slots = match index_remove(index, key.as_str()) {
        Some(slots) => slots,
        None => Vec::new(),
    };
    slots.push(slot);
    index_insert(index, key, slots);
    proof {
        assert(entries(*old(index)).remove(key@).insert(key@, slots@) =~= entries(
            *old(index),
        ).insert(key@, slots@));
    }
}

/// The slots filed under `key`; none when the key is absent.
pub open spec fn filed(entries: Map<Seq<char>, Seq<usize>>, key: Seq<char>) -> Seq<usize> {
    if entries.contains_key(key) {
        entries[key]
    } else {
        Seq::empty()
    }
}

/// The positions, in increasing order, at which `labels` carries `key`.
pub open spec fn positions(labels: Seq<Option<Seq<char>>>, key: Seq<char>) -> Seq<usize>
    decreases labels.len(),
{
    if labels.len() == 0 {
        Seq::empty()
    } else {
        let before = positions(labels.drop_last(), key);
        if labels.last() == Some(key) {
            before.push((labels.len() - 1) as usize)
        } else {
            before
        }
    }
}

/// The index files every position under the label found there, and nothing
/// else: under each key lie exactly the positions that carry it, in order.
pub open spec fn catalogues(
    entries: Map<Seq<char>, Seq<usize>>,
    labels: Seq<Option<Seq<char>>>,
) -> bool {
    forall|key: Seq<char>| #[trigger] filed(entries, key) == positions(labels, key)
}

/// One more label adds its own position to the positions of its key and
/// changes those of no other key.
pub proof fn lemma_positions_push(
    labels: Seq<Option<Seq<char>>>,
    label: Option<Seq<char>>,
    key: Seq<char>,
)
    ensures
        positions(labels.push(label), key) == if label == Some(key) {
            positions(labels, key).push(labels.len() as usize)
        } else {
            positions(labels, key)
        },
{
    assert(labels.push(label).drop_last() =~= labels);
}

/// Every position listed for a key lies inside the labels and carries the
/// key.
pub proof fn lemma_positions_within(labels: Seq<Option<Seq<char>>>, key: Seq<char>)
    requires
        labels.len() <= usize::MAX,
    ensures
        forall|k: int|
            0 <= k < positions(labels, key).len() ==> (#[trigger] positions(labels, key)[k])
                < labels.len() && labels[positions(labels, key)[k] as int] == Some(key),
    decreases labels.len(),
{
    if labels.len() > 0 {
        lemma_positions_within(labels.drop_last(), key);
    }
}

/// No more positions are listed for a key than there are labels.
pub proof fn lemma_positions_count(labels: Seq<Option<Seq<char>>>, key: Seq<char>)
    ensures
        positions(labels, key).len() <= labels.len(),
    decreases labels.len(),
{
    if labels.len() > 0 {
        lemma_positions_count(labels.drop_last(), key);
    }
}

/// The positions listed for a key grow strictly from one to the next.
pub proof fn lemma_positions_increasing(labels: Seq<Option<Seq<char>>>, key: Seq<char>)
    requires
        labels.len() <= usize::MAX,
    ensures
        forall|j: int, k: int|
            0 <= j < k < positions(labels, key).len() ==> positions(labels, key)[j] < positions(
                labels,
                key,
            )[k],
    decreases labels.len(),
{
    if labels.len() > 0 {
        lemma_positions_increasing(labels.drop_last(), key);
        lemma_positions_within(labels.drop_last(), key);
    }
}

/// Where two lists of labels carry a key at the same positions, the
/// positions listed for it are the same.
pub proof fn lemma_positions_agree(
    a: Seq<Option<Seq<char>>>,
    b: Seq<Option<Seq<char>>>,
    key: Seq<char>,
)
    requires
        a.len() == b.len(),
        forall|i: int| 0 <= i < a.len() ==> (a[i] == Some(key)) == (b[i] == Some(key)),
    ensures
        positions(a, key) == positions(b, key),
    decreases a.len(),
{
    if a.len() > 0 {
        lemma_positions_agree(a.drop_last(), b.drop_last(), key);
    }
}

/// A key that no label carries has no position.
pub proof fn lemma_positions_absent(labels: Seq<Option<Seq<char>>>, key: Seq<char>)
    requires
        forall|i: int| 0 <= i < labels.len() ==> labels[i] != Some(key),
    ensures
        positions(labels, key) == Seq::<usize>::empty(),
    decreases labels.len(),
{
    if labels.len() > 0 {
        lemma_positions_absent(labels.drop_last(), key);
    }
}

/// A position carries the key exactly when it is listed for the key.
pub proof fn lemma_positions_complete(labels: Seq<Option<Seq<char>>>, key: Seq<char>, at: int)
    requires
        labels.len() <= usize::MAX,
        0 <= at < labels.len(),
        labels[at] == Some(key),
    ensures
        positions(labels, key).contains(at as usize),
    decreases labels.len(),
{
    let listed = positions(labels, key);
    if at == labels.len() - 1 {
        assert(listed[listed.len() - 1] == at as usize);
    } else {
        lemma_positions_complete(labels.drop_last(), key, at);
        let before = positions(labels.drop_last(), key);
        let k = choose|k: int| 0 <= k < before.len() && before[k] == at as usize;
        assert(listed[k] == at as usize);
    }
}

/// Filing the next position under its label keeps the index in step with the
/// labels.
pub proof fn lemma_catalogues_next(
    entries: Map<Seq<char>, Seq<usize>>,
    labels: Seq<Option<Seq<char>>>,
    label: Option<Seq<char>>,
)
    requires
        catalogues(entries, labels),
    ensures
        match label {
            Some(key) => catalogues(
                entries.insert(key, filed(entries, key).push(labels.len() as usize)),
                labels.push(label),
            ),
            None => catalogues(entries, labels.push(label)),
        },
{
    let after = match label {
        Some(key) => entries.insert(key, filed(entries, key).push(labels.len() as usize)),
        None => entries,
    };
    assert forall|key: Seq<char>| #[trigger]
        filed(after, key) == positions(labels.push(label), key) by {
        lemma_positions_push(labels, label, key);
        assert(filed(entries, key) == positions(labels, key));
    }
}

} // verus!
