//! Staleness snapshots of build inputs.
use vstd::prelude::*;

verus! {

/// The moment a file's metadata last changed, as whole seconds since the
/// epoch and the nanoseconds within that second.
///
/// Timestamps are ordered by seconds first and nanoseconds second.
#[derive(Clone, Copy, Debug, PartialEq, Eq, Structural, Hash, PartialOrd, Ord)]
pub struct Timestamp {
    pub seconds: i64,
    pub nanoseconds: u32,
}

impl Timestamp {
    /// `self` is strictly older than `other`.
    pub open spec fn before(self, other: Timestamp) -> bool {
        self.seconds < other.seconds || (self.seconds == other.seconds && self.nanoseconds
            < other.nanoseconds)
    }

    /// `self` is `other` or older.
    pub open spec fn not_after(self, other: Timestamp) -> bool {
        self == other || self.before(other)
    }

    /// Whether `self` is strictly older than `other`.
    pub fn is_before(&self, other: &Timestamp) -> (older: bool)
        ensures
            older == self.before(*other),
    {
        self.seconds < other.seconds || (self.seconds == other.seconds && self.nanoseconds
            < other.nanoseconds)
    }
}

/// Timestamps are totally ordered: of two, one is older or they are the
/// same, never both; and older than older is older.
pub proof fn law_timestamps_ordered(a: Timestamp, b: Timestamp, c: Timestamp)
    ensures
        a.before(b) || a == b || b.before(a),
        !(a.before(b) && b.before(a)),
        !a.before(a),
        a.before(b) && b.before(c) ==> a.before(c),
{
}

/// The order on optional timestamps: an absent timestamp is older than every
/// present one.
pub open spec fn older(a: Option<Timestamp>, b: Option<Timestamp>) -> bool {
    match (a, b) {
        (None, Some(_)) => true,
        (Some(x), Some(y)) => x.before(y),
        _ => false,
    }
}

/// The newer of two optional timestamps.
pub open spec fn newer_of(a: Option<Timestamp>, b: Option<Timestamp>) -> Option<Timestamp> {
    if older(a, b) {
        b
    } else {
        a
    }
}

/// The newer of two optional timestamps; an absent one never wins over a
/// present one.
pub fn newest(a: Option<Timestamp>, b: Option<Timestamp>) -> (latest: Option<Timestamp>)
    ensures
        latest == newer_of(a, b),
{
    match (a, b) {
        (None, Some(_)) => b,
        (Some(x), Some(y)) => if x.is_before(&y) {
            b
        } else {
            a
        },
        _ => a,
    }
}

/// The identifier of the commit a repository was at.
#[derive(Clone, Debug, PartialEq, Eq, Hash)]
pub struct CacheCommit {
    pub id: String,
}

impl View for CacheCommit {
    type V = Seq<char>;

    open spec fn view(&self) -> Seq<char> {
        self.id@
    }
}

/// What was known about a build input when it was last looked at: the newest
/// change time among its watched files and the commit of its repository.
#[derive(Clone, Debug, PartialEq, Eq, Hash)]
pub struct CacheInfo {
    timestamp: Option<Timestamp>,
    commit: Option<CacheCommit>,
}

/// The mathematical content of a [`CacheInfo`].
pub struct Snapshot {
    pub timestamp: Option<Timestamp>,
    pub commit: Option<Seq<char>>,
}

/// The identifier inside an optional commit.
pub open spec fn commit_id(commit: Option<CacheCommit>) -> Option<Seq<char>> {
    match commit {
        Some(c) => Some(c@),
        None => None,
    }
}

impl View for CacheInfo {
    type V = Snapshot;

    closed spec fn view(&self) -> Snapshot {
        Snapshot { timestamp: self.timestamp, commit: commit_id(self.commit) }
    }
}

impl Default for CacheInfo {
    /// The empty snapshot.
    fn default() -> (info: CacheInfo)
        ensures
            info@ == (Snapshot { timestamp: None, commit: None }),
    {
        CacheInfo { timestamp: None, commit: None }
    }
}

impl CacheInfo {
    /// The snapshot that knows a timestamp and no commit.
    pub fn from_timestamp(timestamp: Timestamp) -> (info: CacheInfo)
        ensures
            info@ == (Snapshot { timestamp: Some(timestamp), commit: None }),
    {
        CacheInfo { timestamp: Some(timestamp), commit: None }
    }

    /// The snapshot of a single file, such as a built or source
    /// distribution, that last changed at `modified`: that time, and no
    /// commit.
    pub fn from_file(modified: Timestamp) -> (info: CacheInfo)
        ensures
            info@ == (Snapshot { timestamp: Some(modified), commit: None }),
    {
        CacheInfo::from_timestamp(modified)
    }

    /// Whether the snapshot knows neither a timestamp nor a commit.
    pub fn is_empty(&self) -> (empty: bool)
        ensures
            empty == (self@.timestamp.is_none() && self@.commit.is_none()),
    {
        self.timestamp.is_none() && self.commit.is_none()
    }

    /// The newest change time among the watched files, if any existed.
    pub fn timestamp(&self) -> (timestamp: Option<Timestamp>)
        ensures
            timestamp == self@.timestamp,
    {
        self.timestamp
    }

    /// The commit of the repository, if one was found.
    pub fn commit(&self) -> (commit: Option<&CacheCommit>)
        ensures
            match commit {
                Some(c) => self@.commit == Some(c@),
                None => self@.commit.is_none(),
            },
    {
        self.commit.as_ref()
    }
}

/// The stored form of a [`CacheInfo`]. Older stores hold a bare timestamp;
/// newer ones hold both fields, each optional.
#[derive(Clone, Debug, PartialEq, Eq, Hash)]
pub enum CacheInfoWire {
    /// A timestamp alone.
    Timestamp(Timestamp),
    /// A timestamp and a commit.
    TimestampCommit { timestamp: Option<Timestamp>, commit: Option<CacheCommit> },
}

impl CacheInfoWire {
    /// The snapshot a stored form stands for. A bare timestamp stands for
    /// the snapshot that knows that timestamp and no commit.
    pub open spec fn snapshot(self) -> Snapshot {
        match self {
            CacheInfoWire::Timestamp(timestamp) => Snapshot {
                timestamp: Some(timestamp),
                commit: None,
            },
            CacheInfoWire::TimestampCommit { timestamp, commit } => Snapshot {
                timestamp,
                commit: commit_id(commit),
            },
        }
    }
}

impl CacheInfo {
    /// The snapshot that a stored form stands for.
    pub fn from_wire(wire: CacheInfoWire) -> (info: CacheInfo)
        ensures
            info@ == wire.snapshot(),
    {
        match wire {
            CacheInfoWire::Timestamp(timestamp) => CacheInfo {
                timestamp: Some(timestamp),
                commit: None,
            },
            CacheInfoWire::TimestampCommit { timestamp, commit } => CacheInfo { timestamp, commit },
        }
    }

    /// The form in which the snapshot is stored: both fields, as they are.
    pub fn into_wire(self) -> (wire: CacheInfoWire)
        ensures
            wire is TimestampCommit,
            wire.snapshot() == self@,
    {
        CacheInfoWire::TimestampCommit { timestamp: self.timestamp, commit: self.commit }
    }
}

/// A snapshot read back from a bare timestamp is the snapshot made from that
/// timestamp.
pub proof fn law_bare_timestamp(timestamp: Timestamp)
    ensures
        CacheInfoWire::Timestamp(timestamp).snapshot() == (Snapshot {
            timestamp: Some(timestamp),
            commit: None,
        }),
{
}

/// Storing a snapshot and reading it back gives the same snapshot: the
/// stored form with both fields stands for exactly those fields.
pub proof fn law_round_trip(timestamp: Option<Timestamp>, commit: Option<CacheCommit>)
    ensures
        (CacheInfoWire::TimestampCommit { timestamp, commit }).snapshot() == (Snapshot {
            timestamp,
            commit: commit_id(commit),
        }),
{
}

/// A declaration of something to watch for staleness.
#[derive(Clone, Debug, PartialEq, Eq, Hash)]
pub enum CacheKey {
    /// Watch the file at this path. Written as a bare path.
    Path(String),
    /// Watch the file at this path. Written as a table with a `file` entry.
    File { file: String },
    /// Include the commit of the repository, or explicitly leave it out.
    Git { git: bool },
}

/// The mathematical content of a [`CacheKey`].
pub enum CacheKeyView {
    Path(Seq<char>),
    File { file: Seq<char> },
    Git { git: bool },
}

impl DeepView for CacheKey {
    type V = CacheKeyView;

    open spec fn deep_view(&self) -> CacheKeyView {
        match self {
            CacheKey::Path(path) => CacheKeyView::Path(path@),
            CacheKey::File { file } => CacheKeyView::File { file: file@ },
            CacheKey::Git { git } => CacheKeyView::Git { git: *git },
        }
    }
}

impl View for CacheKey {
    type V = CacheKeyView;

    open spec fn view(&self) -> CacheKeyView {
        self.deep_view()
    }
}

/// What has to be looked up for one cache key.
#[derive(Clone, Debug, PartialEq, Eq, Hash)]
pub enum Probe {
    /// When the file at this path last changed, if it exists and is a
    /// regular file.
    Modified(String),
    /// The commit the repository of the directory is at, if it has one.
    Commit,
    /// Nothing.
    Nothing,
}

/// The mathematical content of a [`Probe`].
pub enum ProbeView {
    Modified(Seq<char>),
    Commit,
    Nothing,
}

impl DeepView for Probe {
    type V = ProbeView;

    open spec fn deep_view(&self) -> ProbeView {
        match self {
            Probe::Modified(path) => ProbeView::Modified(path@),
            Probe::Commit => ProbeView::Commit,
            Probe::Nothing => ProbeView::Nothing,
        }
    }
}

impl View for Probe {
    type V = ProbeView;

    open spec fn view(&self) -> ProbeView {
        self.deep_view()
    }
}

impl CacheKeyView {
    /// What a key asks to be looked up: both ways of naming a file ask for
    /// its change time, a key that includes the commit asks for the commit,
    /// and a key that leaves the commit out asks for nothing.
    pub open spec fn probe(self) -> ProbeView {
        match self {
            CacheKeyView::Path(path) => ProbeView::Modified(path),
            CacheKeyView::File { file } => ProbeView::Modified(file),
            CacheKeyView::Git { git } => if git {
                ProbeView::Commit
            } else {
                ProbeView::Nothing
            },
        }
    }
}

impl CacheKey {
    /// What has to be looked up for this key.
    pub fn probe(&self) -> (probe: Probe)
        ensures
            probe@ == self@.probe(),
    {
        match self {
            CacheKey::Path(path) => Probe::Modified(path.clone()),
            CacheKey::File { file } => Probe::Modified(file.clone()),
            CacheKey::Git { git } => if *git {
                Probe::Commit
            } else {
                Probe::Nothing
            },
        }
    }
}

/// The files watched in a directory that declares no cache keys, by name.
pub open spec fn default_names() -> Seq<Seq<char>> {
    seq!["pyproject.toml"@, "setup.py"@, "setup.cfg"@]
}

/// The names of the files watched in a directory that declares no cache
/// keys. They are looked for in the directory itself.
pub fn default_file_names() -> (names: Vec<String>)
    ensures
        names.deep_view() == default_names(),
{
    let mut names: Vec<String> = Vec::new();
    names.push(String::from_str("pyproject.toml"));
    names.push(String::from_str("setup.py"));
    names.push(String::from_str("setup.cfg"));
    proof {
        assert(names.deep_view() =~= default_names());
    }
    names
}

/// The keys that `paths` stand for: one bare path key each.
pub open spec fn path_keys(paths: Seq<Seq<char>>) -> Seq<CacheKeyView> {
    Seq::new(paths.len(), |i: int| CacheKeyView::Path(paths[i]))
}

/// The cache keys in force for a directory: those its manifest declares, or,
/// when it declares none, one path key for each of the default files.
///
/// `declared` is absent when the directory has no manifest, when the
/// manifest cannot be parsed, and when it has no list of cache keys.
/// `defaults` are the paths of the default files.
pub fn cache_keys(declared: Option<Vec<CacheKey>>, defaults: Vec<String>) -> (keys: Vec<CacheKey>)
    ensures
        keys.deep_view() == match declared {
            Some(declared) => declared.deep_view(),
            None => path_keys(defaults.deep_view()),
        },
{
    match declared {
        Some(declared) => declared,
        None => {
            let mut keys: Vec<CacheKey> = Vec::new();
            let mut i: usize = 0;
            while i < defaults.len()
                invariant
                    i <= defaults.len(),
                    keys.len() == i,
                    forall|j: int| 0 <= j < i ==> keys[j]@ == CacheKeyView::Path(defaults[j]@),
                decreases defaults.len() - i,
            {
                keys.push(CacheKey::Path(defaults[i].clone()));
                i += 1;
            }
            proof {
                assert(keys.deep_view() =~= path_keys(defaults.deep_view()));
            }
            keys
        },
    }
}

/// What looking something up for a cache key found.
#[derive(Clone, Debug, PartialEq, Eq, Hash)]
pub enum Observation {
    /// The change time of a watched file; absent when the file does not
    /// exist, is no regular file or cannot be examined.
    Modified(Option<Timestamp>),
    /// The commit of the repository; absent when there is none or it cannot
    /// be read.
    Commit(Option<CacheCommit>),
}

/// The mathematical content of an [`Observation`].
pub enum ObservationView {
    Modified(Option<Timestamp>),
    Commit(Option<Seq<char>>),
}

impl DeepView for Observation {
    type V = ObservationView;

    open spec fn deep_view(&self) -> ObservationView {
        match self {
            Observation::Modified(timestamp) => ObservationView::Modified(*timestamp),
            Observation::Commit(commit) => ObservationView::Commit(commit_id(*commit)),
        }
    }
}

impl View for Observation {
    type V = ObservationView;

    open spec fn view(&self) -> ObservationView {
        self.deep_view()
    }
}

impl Snapshot {
    /// The snapshot after one more observation: a change time replaces the
    /// timestamp if it is newer, a commit that was found replaces the commit,
    /// and what was not found changes nothing.
    pub open spec fn observe(self, observation: ObservationView) -> Snapshot {
        match observation {
            ObservationView::Modified(timestamp) => Snapshot {
                timestamp: newer_of(self.timestamp, timestamp),
                ..self
            },
            ObservationView::Commit(Some(commit)) => Snapshot { commit: Some(commit), ..self },
            ObservationView::Commit(None) => self,
        }
    }
}

/// The snapshot that a run of observations adds up to, starting from
/// nothing.
pub open spec fn summary(observations: Seq<ObservationView>) -> Snapshot
    decreases observations.len(),
{
    if observations.len() == 0 {
        Snapshot { timestamp: None, commit: None }
    } else {
        summary(observations.drop_last()).observe(observations.last())
    }
}

impl CacheInfo {
    /// The snapshot of a directory, from what was observed for each of its
    /// cache keys, in the order of the keys: the newest change time among
    /// the watched files that exist, and the commit last found.
    pub fn from_directory(observations: Vec<Observation>) -> (info: CacheInfo)
        ensures
            info@ == summary(observations.deep_view()),
    {
        let ghost all = observations.deep_view();
        let mut remaining = observations;
        let mut timestamp: Option<Timestamp> = None;
        let mut commit: Option<CacheCommit> = None;
        let mut i: usize = 0;
        while i < remaining.len()
            invariant
                i <= remaining.len(),
                remaining.len() == all.len(),
                all == observations.deep_view(),
                forall|j: int| i <= j < remaining.len() ==> remaining[j]@ == all[j],
                (Snapshot { timestamp, commit: commit_id(commit) }) == summary(all.take(i as int)),
            decreases remaining.len() - i,
        {
            let mut observation = Observation::Modified(None);
            std::mem::swap(&mut observation, &mut remaining[i]);
            proof {
                assert(all.take(i + 1).drop_last() =~= all.take(i as int));
                assert(observation@ == all[i as int]);
            }
            match observation {
                Observation::Modified(modified) => {
                    timestamp = newest(timestamp, modified);
                },
                Observation::Commit(Some(found)) => {
                    commit = Some(found);
                },
                Observation::Commit(None) => {},
            }
            i += 1;
        }
        proof {
            assert(all.take(i as int) =~= all);
        }
        CacheInfo { timestamp, commit }
    }
}

/// The timestamp of a summary is no older than any change time observed,
/// and it is one of them, or absent when none was observed.
pub proof fn law_newest_wins(observations: Seq<ObservationView>)
    ensures
        forall|i: int|
            0 <= i < observations.len() ==> (#[trigger] observations[i]
                matches ObservationView::Modified(Some(seen)) ==> summary(
                observations,
            ).timestamp matches Some(kept) && seen.not_after(kept)),
        summary(observations).timestamp matches Some(kept) ==> exists|i: int|
            0 <= i < observations.len() && #[trigger] observations[i] == ObservationView::Modified(
                Some(kept),
            ),
    decreases observations.len(),
{
    if observations.len() > 0 {
        let earlier = observations.drop_last();
        law_newest_wins(earlier);
        assert forall|i: int| 0 <= i < observations.len() implies (#[trigger] observations[i]
            matches ObservationView::Modified(Some(seen)) ==> summary(
            observations,
        ).timestamp matches Some(kept) && seen.not_after(kept)) by {
            if i < earlier.len() {
                assert(earlier[i] == observations[i]);
            }
        }
        if let Some(kept) = summary(observations).timestamp {
            if summary(earlier).timestamp == Some(kept) {
                let i = choose|i: int|
                    0 <= i < earlier.len() && #[trigger] earlier[i] == ObservationView::Modified(
                        Some(kept),
                    );
                assert(observations[i] == ObservationView::Modified(Some(kept)));
            } else {
                assert(observations[observations.len() - 1] == ObservationView::Modified(
                    Some(kept),
                ));
            }
        }
    }
}

/// A directory in which nothing that is watched exists, and for which no
/// commit is found, has the empty snapshot.
pub proof fn law_nothing_found(observations: Seq<ObservationView>)
    requires
        forall|i: int|
            0 <= i < observations.len() ==> observations[i] == ObservationView::Modified(None)
                || observations[i] == ObservationView::Commit(None),
    ensures
        summary(observations) == (Snapshot { timestamp: None, commit: None }),
    decreases observations.len(),
{
    if observations.len() > 0 {
        law_nothing_found(observations.drop_last());
    }
}

/// Touching a watched file advances the snapshot. When the observations of
/// a directory are taken again, with one file now changed at a time newer
/// than the timestamp of the earlier snapshot and everything else as it was,
/// the later snapshot carries that time, which is strictly newer.
pub proof fn law_touch_advances(observations: Seq<ObservationView>, at: int, touched: Timestamp)
    requires
        0 <= at < observations.len(),
        observations[at] is Modified,
        older(summary(observations).timestamp, Some(touched)),
    ensures
        summary(observations.update(at, ObservationView::Modified(Some(touched)))).timestamp
            == Some(touched),
        older(
            summary(observations).timestamp,
            summary(observations.update(at, ObservationView::Modified(Some(touched)))).timestamp,
        ),
{
    let later = observations.update(at, ObservationView::Modified(Some(touched)));
    law_newest_wins(observations);
    law_newest_wins(later);
    let kept = summary(later).timestamp->Some_0;
    assert(later[at] == ObservationView::Modified(Some(touched)));
    assert(touched.not_after(kept));
    let i = choose|i: int|
        0 <= i < later.len() && #[trigger] later[i] == ObservationView::Modified(Some(kept));
    if i != at {
        assert(observations[i] == ObservationView::Modified(Some(kept)));
    }
}

} // verus!
