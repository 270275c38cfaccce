//! Scanning the search path of an environment for installed distributions.
//!
//! The scan itself, listing directories and reading what lies in them, is
//! the caller's. Decided here is which entries of a directory are looked at
//! and in what order, and what becomes of each thing the caller finds.
use crate::distribution::DistView;
use crate::distribution::InstalledDist;
use crate::text::lemma_text_le_antisymmetric;
use crate::text::ordered;
use crate::text::same_text;
use crate::text::sort_texts;
use crate::text::text_le;
use vstd::prelude::*;

verus! {

/// One entry of a search directory.
#[derive(Clone, Debug, PartialEq, Eq, Hash)]
pub struct Entry {
    /// The path of the entry.
    pub path: String,
    /// Whether the entry is a directory.
    pub is_dir: bool,
    /// The extension of the entry's file name, if it has one that is valid
    /// text.
    pub extension: Option<String>,
}

/// The mathematical content of an [`Entry`].
pub struct EntryView {
    pub path: Seq<char>,
    pub is_dir: bool,
    pub extension: Option<Seq<char>>,
}

impl DeepView for Entry {
    type V = EntryView;

    open spec fn deep_view(&self) -> EntryView {
        EntryView {
            path: self.path@,
            is_dir: self.is_dir,
            extension: self.extension.deep_view(),
        }
    }
}

impl View for Entry {
    type V = EntryView;

    open spec fn view(&self) -> EntryView {
        self.deep_view()
    }
}

/// An entry that may be an installed distribution: a directory, or a file
/// whose extension is `egg-link` or `egg-info`.
pub open spec fn eligible(is_dir: bool, extension: Option<Seq<char>>) -> bool {
    is_dir || extension == Some("egg-link"@) || extension == Some("egg-info"@)
}

/// `path` is the path of an eligible entry among `entries`.
pub open spec fn offered(entries: Seq<EntryView>, path: Seq<char>) -> bool {
    exists|i: int|
        0 <= i < entries.len() && eligible(entries[i].is_dir, entries[i].extension)
            && (#[trigger] entries[i]).path == path
}

/// What probing one candidate path of a search directory found.
#[derive(Clone, Debug, PartialEq, Eq, Hash)]
pub enum Probed {
    /// An installed distribution.
    Distribution(InstalledDist),
    /// Nothing that marks an installed distribution.
    Unrecognized,
    /// Something that could not be read. `file_name` is the last component
    /// of the path, when it has one that is valid text.
    Unreadable { path: String, file_name: Option<String> },
}

/// What became of one probed path.
#[derive(Clone, Copy, Debug, PartialEq, Eq, Hash)]
pub enum Recorded {
    /// The distribution was put into this slot.
    Indexed(usize),
    /// The path was no distribution and was passed over.
    Skipped,
    /// The path was an unreadable leftover of an interrupted installation and
    /// was passed over. The caller may want to warn about it.
    Dangling,
}

/// The scan met a path it could not read.
#[derive(Clone, Debug, PartialEq, Eq, Hash)]
pub struct ScanError {
    /// The offending path.
    pub path: String,
}

/// A file name that marks a temporary directory left behind by an
/// interrupted installation: one that begins with a tilde.
pub open spec fn dangling(file_name: Option<Seq<char>>) -> bool {
    match file_name {
        Some(name) => name.len() > 0 && name[0] == '~',
        None => false,
    }
}

/// Whether the file name marks a leftover temporary directory.
pub fn is_dangling(file_name: &Option<String>) -> (leftover: bool)
    ensures
        leftover == dangling(file_name.deep_view()),
{
    match file_name {
        Some(name) => {
            let name = name.as_str();
            !name.is_empty() && name.get_char(0) == '~'
        },
        None => false,
    }
}

/// Whether a directory entry may be an installed distribution.
pub fn is_candidate(is_dir: bool, extension: &Option<String>) -> (candidate: bool)
    ensures
        candidate == eligible(is_dir, extension.deep_view()),
{
    if is_dir {
        return true;
    }
    match extension {
        Some(extension) => {
            let link = String::from_str("egg-link");
            let info = String::from_str("egg-info");
            *extension == link || *extension == info
        },
        None => false,
    }
}

/// The mathematical content of a [`Probed`].
pub enum ProbedView {
    Distribution(DistView),
    Unrecognized,
    Unreadable { path: Seq<char>, file_name: Option<Seq<char>> },
}

impl DeepView for Probed {
    type V = ProbedView;

    open spec fn deep_view(&self) -> ProbedView {
        match self {
            Probed::Distribution(dist) => ProbedView::Distribution(dist@),
            Probed::Unrecognized => ProbedView::Unrecognized,
            Probed::Unreadable { path, file_name } => ProbedView::Unreadable {
                path: path@,
                file_name: file_name.deep_view(),
            },
        }
    }
}

impl View for Probed {
    type V = ProbedView;

    open spec fn view(&self) -> ProbedView {
        self.deep_view()
    }
}

/// A probe that ends the scan: something unreadable that is no leftover
/// temporary directory.
pub open spec fn fatal(probed: ProbedView) -> bool {
    match probed {
        ProbedView::Unreadable { path, file_name } => !dangling(file_name),
        _ => false,
    }
}

/// The slots that recording the probes one after another fills: one for each
/// distribution found, in the order found.
pub open spec fn installed(probed: Seq<ProbedView>) -> Seq<Option<DistView>>
    decreases probed.len(),
{
    if probed.len() == 0 {
        Seq::empty()
    } else {
        let before = installed(probed.drop_last());
        match probed.last() {
            ProbedView::Distribution(dist) => before.push(Some(dist)),
            _ => before,
        }
    }
}

/// The scan stops at probe `at`: it is the first that cannot be passed over.
pub open spec fn stops_at(probed: Seq<ProbedView>, at: int) -> bool {
    &&& 0 <= at < probed.len()
    &&& fatal(probed[at])
    &&& forall|j: int| 0 <= j < at ==> !fatal(#[trigger] probed[j])
}

/// The paths to probe in a directory with these entries: the paths of the
/// eligible entries, each once, in ascending order. The order in which a
/// directory lists its entries differs from system to system and is not to
/// show in the index.
pub fn candidates(entries: &Vec<Entry>) -> (paths: Vec<String>)
    ensures
        ordered(paths.deep_view()),
        paths.deep_view().no_duplicates(),
        forall|path: Seq<char>|
            paths.deep_view().contains(path) <==> offered(entries.deep_view(), path),
{
    let ghost all = entries.deep_view();
    let mut picked: Vec<String> = Vec::new();
    let mut i: usize = 0;
    while i < entries.len()
        invariant
            i <= entries.len(),
            all == entries.deep_view(),
            forall|path: Seq<char>|
                picked.deep_view().contains(path) <==> offered(all.take(i as int), path),
        decreases entries.len() - i,
    {
        let ghost before = picked.deep_view();
        let entry = &entries[i];
        let take = is_candidate(entry.is_dir, &entry.extension);
        if take {
            picked.push(entry.path.clone());
            proof {
                assert(picked.deep_view() =~= before.push(entry.path@));
            }
        }
        proof {
            let shorter = all.take(i as int);
            let longer = all.take(i + 1);
            let after = picked.deep_view();
            assert(longer[i as int] == entry@);
            assert forall|path: Seq<char>| after.contains(path) <==> offered(longer, path) by {
                if after.contains(path) {
                    let k = choose|k: int| 0 <= k < after.len() && after[k] == path;
                    if k < before.len() {
                        assert(before[k] == path);
                        assert(before.contains(path));
                        assert(offered(shorter, path));
                        let j = choose|j: int|
                            0 <= j < shorter.len() && eligible(
                                shorter[j].is_dir,
                                shorter[j].extension,
                            ) && (#[trigger] shorter[j]).path == path;
                        assert(longer[j].path == path);
                    } else {
                        assert(longer[i as int].path == path);
                    }
                }
                if offered(longer, path) {
                    let j = choose|j: int|
                        0 <= j < longer.len() && eligible(longer[j].is_dir, longer[j].extension)
                            && (#[trigger] longer[j]).path == path;
                    if j < i {
                        assert(shorter[j].path == path);
                        assert(before.contains(path));
                        let k = choose|k: int| 0 <= k < before.len() && before[k] == path;
                        assert(after[k] == path);
                    } else {
                        assert(after[after.len() - 1] == path);
                    }
                }
            }
        }
        i += 1;
    }
    proof {
        assert(all.take(i as int) =~= all);
    }
    let ghost unsorted = picked.deep_view();
    sort_texts(&mut picked);
    let ghost sorted = picked.deep_view();
    proof {
        unsorted.to_multiset_ensures();
        sorted.to_multiset_ensures();
    }
    let mut paths: Vec<String> = Vec::new();
    let mut k: usize = 0;
    while k < picked.len()
        invariant
            k <= picked.len(),
            sorted == picked.deep_view(),
            ordered(sorted),
            ordered(paths.deep_view()),
            forall|a: int, b: int|
                0 <= a < paths.len() && k <= b < sorted.len() ==> text_le(
                    paths.deep_view()[a],
                    sorted[b],
                ),
            forall|a: int, b: int|
                0 <= a && b == a + 1 && b < paths.len() ==> paths.deep_view()[a]
                    != paths.deep_view()[b],
            k == 0 ==> paths.len() == 0,
            k > 0 ==> paths.len() > 0 && paths.deep_view().last() == sorted[k - 1],
            forall|path: Seq<char>|
                paths.deep_view().contains(path) <==> sorted.take(k as int).contains(path),
        decreases picked.len() - k,
    {
        let ghost before = paths.deep_view();
        let repeated = k > 0 && same_text(&paths[paths.len() - 1], &picked[k]);
        proof {
            if k > 0 {
                assert(paths[paths.len() - 1]@ == before.last());
            }
            assert(picked[k as int]@ == sorted[k as int]);
        }
        if !repeated {
            paths.push(picked[k].clone());
            proof {
                assert(paths.deep_view() =~= before.push(sorted[k as int]));
                assert forall|a: int, b: int|
                    0 <= a && b == a + 1 && b < paths.len() implies paths.deep_view()[a]
                    != paths.deep_view()[b] by {
                    if b < before.len() {
                        assert(before[a] != before[b]);
                    }
                }
            }
        }
        proof {
            let after = paths.deep_view();
            let shorter = sorted.take(k as int);
            let longer = sorted.take(k + 1);
            assert forall|path: Seq<char>| after.contains(path) <==> longer.contains(path) by {
                if after.contains(path) {
                    let a = choose|a: int| 0 <= a < after.len() && after[a] == path;
                    if a < before.len() {
                        assert(before[a] == path);
                        assert(before.contains(path));
                        assert(shorter.contains(path));
                        let b = choose|b: int| 0 <= b < shorter.len() && shorter[b] == path;
                        assert(longer[b] == path);
                    } else {
                        assert(longer[k as int] == path);
                    }
                }
                if longer.contains(path) {
                    let b = choose|b: int| 0 <= b < longer.len() && longer[b] == path;
                    if b < k {
                        assert(shorter[b] == path);
                        assert(shorter.contains(path));
                        assert(before.contains(path));
                        let a = choose|a: int| 0 <= a < before.len() && before[a] == path;
                        assert(after[a] == path);
                    } else {
                        assert(after[after.len() - 1] == path);
                    }
                }
            }
        }
        k += 1;
    }
    proof {
        let listed = paths.deep_view();
        assert(sorted.take(k as int) =~= sorted);
        assert forall|a: int, b: int| 0 <= a < listed.len() && 0 <= b < listed.len() && a
            != b implies listed[a] != listed[b] by {
            let low = if a < b {
                a
            } else {
                b
            };
            let high = if a < b {
                b
            } else {
                a
            };
            if listed[low] == listed[high] && low + 1 < high {
                lemma_text_le_antisymmetric(listed[low], listed[low + 1]);
            }
        }
        assert forall|path: Seq<char>| listed.contains(path) <==> offered(all, path) by {
            assert(sorted.contains(path) <==> sorted.to_multiset().count(path) > 0);
            assert(unsorted.contains(path) <==> unsorted.to_multiset().count(path) > 0);
        }
    }
    paths
}

} // verus!
