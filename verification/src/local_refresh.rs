//! The decisions behind local refresh: which changed path matters, how
//! changes coalesce into one pending refresh, when a burst of activity is
//! due, and the bounded memory of what each watched file looked like.
//! Watching, reading metadata and delivering to the interface stay outside.

use vstd::prelude::*;
use crate::paths::{
    components, components_below, path_components, paths_equal, same_path, starts_with, views,
    lemma_same_path_is_equivalence,
};
use crate::text::{fit_count, prefix_within, push_char, utf8_len};

verus! {

/// How long a burst waits for quiet before it is delivered, in milliseconds.
pub const QUIET_PERIOD_MILLIS: u64 = 250;

/// The longest a continuous burst is held back, in milliseconds.
pub const MAX_DELAY_MILLIS: u64 = 2000;

/// How many files' last-seen metadata is remembered.
pub const MAX_FINGERPRINTS: usize = 4096;

/// The longest watch error kept, in bytes, before it is shortened.
pub const MAX_ERROR_BYTES: usize = 2048;

/// What a refresh must look at after a burst of notifications.
#[derive(Clone, Debug, PartialEq, Eq)]
pub struct LocalChange {
    pub worktree: bool,
    pub git: bool,
    /// Lost events or a watch failure: read current local state without
    /// guessing which paths changed.
    pub rescan: bool,
    pub error: Option<String>,
    /// Coverage recovered; supersedes a prior warning in a coalesced burst.
    pub recovered: bool,
}

pub struct ChangeModel {
    pub worktree: bool,
    pub git: bool,
    pub rescan: bool,
    pub error: Option<Seq<char>>,
    pub recovered: bool,
}

pub open spec fn error_view(error: Option<String>) -> Option<Seq<char>> {
    match error {
        Some(e) => Some(e@),
        None => None,
    }
}

impl View for LocalChange {
    type V = ChangeModel;

    open spec fn view(&self) -> ChangeModel {
        ChangeModel {
            worktree: self.worktree,
            git: self.git,
            rescan: self.rescan,
            error: error_view(self.error),
            recovered: self.recovered,
        }
    }
}

/// The change that asks for nothing.
pub open spec fn no_change() -> ChangeModel {
    ChangeModel { worktree: false, git: false, rescan: false, error: None, recovered: false }
}

/// Two changes coalesced: every request of either, and of the warning and
/// the recovery the later one's word, a new warning winning over a recovery
/// it arrives with.
pub open spec fn merged(a: ChangeModel, b: ChangeModel) -> ChangeModel {
    ChangeModel {
        worktree: a.worktree || b.worktree,
        git: a.git || b.git,
        rescan: a.rescan || b.rescan,
        error: if b.error is Some {
            b.error
        } else if b.recovered {
            None
        } else {
            a.error
        },
        recovered: if b.error is Some {
            false
        } else if b.recovered {
            true
        } else {
            a.recovered
        },
    }
}

impl Default for LocalChange {
    fn default() -> (r: Self)
        ensures
            r@ == no_change(),
    {
        LocalChange { worktree: false, git: false, rescan: false, error: None, recovered: false }
    }
}

impl LocalChange {
    /// Coalesce a later change into this one.
    pub fn merge(&mut self, next: Self)
        ensures
            final(self)@ == merged(old(self)@, next@),
    {
        self.worktree = self.worktree || next.worktree;
        self.git = self.git || next.git;
        self.rescan = self.rescan || next.rescan;
        if next.recovered {
            self.error = None;
            self.recovered = true;
        }
        if next.error.is_some() {
            self.error = next.error;
            self.recovered = false;
        }
    }

    pub fn is_empty(&self) -> (r: bool)
        ensures
            r == (self@ == no_change()),
    {
        !self.worktree && !self.git && !self.rescan && self.error.is_none() && !self.recovered
    }
}

/// Coalescing does not depend on how changes were grouped on the way.
pub proof fn law_merge_is_associative(a: ChangeModel, b: ChangeModel, c: ChangeModel)
    ensures
        merged(merged(a, b), c) == merged(a, merged(b, c)),
{
}

/// Coalescing the empty change changes nothing, on either side.
pub proof fn law_merge_with_nothing(a: ChangeModel)
    ensures
        merged(a, no_change()) == a,
        merged(no_change(), a).worktree == a.worktree,
        merged(no_change(), a).git == a.git,
        merged(no_change(), a).rescan == a.rescan,
        merged(no_change(), a).error == a.error,
        a.error is Some ==> merged(no_change(), a).recovered == false,
        a.error is None ==> merged(no_change(), a).recovered == a.recovered,
{
}

/// Changes held back while activity continues, with when the burst began
/// and when it last changed, in milliseconds of a monotonic clock.
pub struct Burst {
    pub first: Option<u64>,
    pub last: Option<u64>,
    pub change: LocalChange,
}

pub struct BurstModel {
    pub first: Option<u64>,
    pub last: Option<u64>,
    pub change: ChangeModel,
}

impl View for Burst {
    type V = BurstModel;

    open spec fn view(&self) -> BurstModel {
        BurstModel { first: self.first, last: self.last, change: self.change@ }
    }
}

/// When a burst is due: a quiet period after its last change, but no later
/// than the longest delay after its first; none while nothing is held.
pub open spec fn burst_deadline(b: BurstModel) -> Option<int> {
    match (b.first, b.last) {
        (Some(first), Some(last)) => Some(
            if last + QUIET_PERIOD_MILLIS <= first + MAX_DELAY_MILLIS {
                last + QUIET_PERIOD_MILLIS
            } else {
                first + MAX_DELAY_MILLIS
            },
        ),
        _ => None,
    }
}

/// The times a burst holds leave room for its deadline on the clock.
pub open spec fn times_fit(b: BurstModel) -> bool {
    &&& b.first matches Some(t) ==> t + MAX_DELAY_MILLIS <= u64::MAX
    &&& b.last matches Some(t) ==> t + MAX_DELAY_MILLIS <= u64::MAX
}

impl Default for Burst {
    fn default() -> (r: Self)
        ensures
            r@ == (BurstModel { first: None, last: None, change: no_change() }),
    {
        Burst { first: None, last: None, change: LocalChange::default() }
    }
}

impl Burst {
    /// Hold a change that arrived at `now`; an empty change is not activity.
    pub fn push(&mut self, change: LocalChange, now: u64)
        ensures
            change@ == no_change() ==> final(self)@ == old(self)@,
            change@ != no_change() ==> final(self)@ == (BurstModel {
                first: if old(self)@.first is Some {
                    old(self)@.first
                } else {
                    Some(now)
                },
                last: Some(now),
                change: merged(old(self)@.change, change@),
            }),
    {
        if change.is_empty() {
            return;
        }
        if self.first.is_none() {
            self.first = Some(now);
        }
        self.last = Some(now);
        self.change.merge(change);
    }

    pub fn deadline(&self) -> (r: Option<u64>)
        requires
            times_fit(self@),
        ensures
            match burst_deadline(self@) {
                Some(d) => r == Some(d as u64),
                None => r is None,
            },
    {
        match (self.first, self.last) {
            (Some(first), Some(last)) => {
                let quiet = last + QUIET_PERIOD_MILLIS;
                let longest = first + MAX_DELAY_MILLIS;
                Some(
                    if quiet <= longest {
                        quiet
                    } else {
                        longest
                    },
                )
            },
            _ => None,
        }
    }

    /// The held change once its deadline has come, leaving nothing held.
    pub fn take_due(&mut self, now: u64) -> (r: Option<LocalChange>)
        requires
            times_fit(old(self)@),
        ensures
            match burst_deadline(old(self)@) {
                Some(d) if d <= now => {
                    &&& r is Some
                    &&& r->0@ == old(self)@.change
                    &&& final(self)@ == (BurstModel { first: None, last: None, change: no_change() })
                },
                _ => r is None && final(self)@ == old(self)@,
            },
    {
        match self.deadline() {
            Some(deadline) => {
                if deadline > now {
                    return None;
                }
            },
            None => {
                return None;
            },
        }
        self.first = None;
        self.last = None;
        let mut taken = LocalChange::default();
        std::mem::swap(&mut taken, &mut self.change);
        Some(taken)
    }
}

/// A held burst is due no later than the longest delay after it began, and
/// no later than a quiet period after its last change.
pub proof fn law_burst_delay_is_bounded(b: BurstModel)
    requires
        b.first is Some,
        b.last is Some,
    ensures
        burst_deadline(b) is Some,
        burst_deadline(b)->0 <= b.first->0 + MAX_DELAY_MILLIS,
        burst_deadline(b)->0 <= b.last->0 + QUIET_PERIOD_MILLIS,
{
}

/// A watch error as it is reported: whole when it fits the bound, otherwise
/// the characters that fit, followed by an ellipsis.
pub open spec fn bounded_message(s: Seq<char>) -> Seq<char> {
    if utf8_len(s) <= MAX_ERROR_BYTES {
        s
    } else {
        s.take(fit_count(s, MAX_ERROR_BYTES as int) as int).push('\u{2026}')
    }
}

/// Shorten a watch error to at most the bound's bytes, at a character
/// boundary, marking the cut with an ellipsis.
pub fn bounded_error(message: String) -> (r: String)
    ensures
        r@ == bounded_message(message@),
{
    let total = message.as_str().as_bytes().len();
    if total <= MAX_ERROR_BYTES {
        return message;
    }
    let mut shortened = prefix_within(message.as_str(), MAX_ERROR_BYTES);
    push_char(&mut shortened, '\u{2026}');
    shortened
}

/// What one file looked like when it was last seen, as plain values: absent,
/// unreadable with a kind of failure, or its metadata.
#[derive(Clone, Copy, Debug, PartialEq, Eq, Structural)]
pub enum Stamp {
    Missing,
    Unavailable(u64),
    File {
        length: u64,
        modified_seconds: Option<i64>,
        modified_nanos: u32,
        directory: bool,
        symlink: bool,
        readonly: bool,
        device: u64,
        inode: u64,
        mode: u32,
        changed_seconds: i64,
        changed_nanos: i64,
    },
}

fn same_fingerprint(a: &Vec<Stamp>, b: &Vec<Stamp>) -> (r: bool)
    ensures
        r == (a@ == b@),
{
    if a.len() != b.len() {
        return false;
    }
    let mut i: usize = 0;
    while i < a.len()
        invariant
            i <= a@.len(),
            a@.len() == b@.len(),
            forall|k: int| 0 <= k < i ==> a@[k] == b@[k],
        decreases a@.len() - i,
    {
        if a[i] != b[i] {
            return false;
        }
        i = i + 1;
    }
    proof {
        assert(a@ =~= b@);
    }
    true
}

fn copy_stamps(a: &Vec<Stamp>) -> (r: Vec<Stamp>)
    ensures
        r@ == a@,
{
    let mut r: Vec<Stamp> = Vec::new();
    let mut i: usize = 0;
    while i < a.len()
        invariant
            i <= a@.len(),
            r@ == a@.take(i as int),
        decreases a@.len() - i,
    {
        r.push(a[i]);
        i = i + 1;
        proof {
            assert(r@ =~= a@.take(i as int));
        }
    }
    proof {
        assert(a@.take(a@.len() as int) =~= a@);
    }
    r
}

/// The position of the first entry kept for `path`, by path equality.
pub open spec fn index_of(entries: Seq<(Seq<u8>, Seq<Stamp>)>, path: Seq<u8>) -> Option<int>
    decreases entries.len(),
{
    if entries.len() == 0 {
        None
    } else {
        match index_of(entries.drop_last(), path) {
            Some(i) => Some(i),
            None => if same_path(entries.last().0, path) {
                Some(entries.len() - 1)
            } else {
                None
            },
        }
    }
}

/// The look last stored for `path`, if it is remembered.
pub open spec fn look_of(entries: Seq<(Seq<u8>, Seq<Stamp>)>, path: Seq<u8>) -> Option<Seq<Stamp>> {
    match index_of(entries, path) {
        Some(i) => Some(entries[i].1),
        None => None,
    }
}

/// The entries after storing `look` for `path`: a remembered path keeps its
/// place and takes the new look; a new path goes last, the oldest entry
/// giving way when the bound is reached.
pub open spec fn remembered(entries: Seq<(Seq<u8>, Seq<Stamp>)>, path: Seq<u8>, look: Seq<Stamp>) -> Seq<
    (Seq<u8>, Seq<Stamp>),
> {
    match index_of(entries, path) {
        Some(i) => entries.update(i, (entries[i].0, look)),
        None => (if entries.len() >= MAX_FINGERPRINTS {
            entries.drop_first()
        } else {
            entries
        }).push((path, look)),
    }
}

/// No path is kept twice, and the bound holds.
pub open spec fn entries_fit(entries: Seq<(Seq<u8>, Seq<Stamp>)>) -> bool {
    &&& entries.len() <= MAX_FINGERPRINTS
    &&& forall|i: int, j: int|
        0 <= i < j < entries.len() ==> !same_path(#[trigger] entries[i].0, #[trigger] entries[j].0)
}

proof fn lemma_index_of(entries: Seq<(Seq<u8>, Seq<Stamp>)>, path: Seq<u8>)
    ensures
        index_of(entries, path) is None <==> forall|i: int|
            0 <= i < entries.len() ==> !same_path(#[trigger] entries[i].0, path),
        index_of(entries, path) matches Some(i) ==> {
            &&& 0 <= i < entries.len()
            &&& same_path(entries[i].0, path)
            &&& forall|j: int| 0 <= j < i ==> !same_path(#[trigger] entries[j].0, path)
        },
    decreases entries.len(),
{
    if entries.len() > 0 {
        let prefix = entries.drop_last();
        lemma_index_of(prefix, path);
        match index_of(prefix, path) {
            Some(i) => {
                assert(prefix[i] == entries[i]);
                assert forall|j: int| 0 <= j < i implies !same_path(#[trigger] entries[j].0, path) by {
                    assert(prefix[j] == entries[j]);
                }
            },
            None => {
                assert forall|j: int| 0 <= j < prefix.len() implies !same_path(
                    #[trigger] entries[j].0,
                    path,
                ) by {
                    assert(prefix[j] == entries[j]);
                }
            },
        }
    }
}

/// The entries with a first entry for `path` at `i`, the one found there.
proof fn lemma_index_found(entries: Seq<(Seq<u8>, Seq<Stamp>)>, path: Seq<u8>, i: int)
    requires
        0 <= i < entries.len(),
        same_path(entries[i].0, path),
        forall|j: int| 0 <= j < i ==> !same_path(#[trigger] entries[j].0, path),
    ensures
        index_of(entries, path) == Some(i),
{
    lemma_index_of(entries, path);
    let k = index_of(entries, path)->0;
    if k < i {
        assert(!same_path(entries[k].0, path));
    }
    if i < k {
        assert(!same_path(entries[i].0, path));
    }
}

/// Storing a look is what a later lookup of that path reads back, and the
/// entries stay within their bound with no path kept twice.
pub proof fn law_fingerprint_reads_back(entries: Seq<(Seq<u8>, Seq<Stamp>)>, path: Seq<u8>, look: Seq<Stamp>)
    requires
        entries_fit(entries),
    ensures
        look_of(remembered(entries, path, look), path) == Some(look),
        entries_fit(remembered(entries, path, look)),
{
    lemma_same_path_is_equivalence();
    lemma_index_of(entries, path);
    let after = remembered(entries, path, look);
    match index_of(entries, path) {
        Some(i) => {
            assert forall|j: int| 0 <= j < after.len() implies #[trigger] after[j].0 == entries[j].0 by {}
            assert forall|j: int| 0 <= j < i implies !same_path(#[trigger] after[j].0, path) by {
                assert(after[j].0 == entries[j].0);
            }
            lemma_index_found(after, path, i);
            assert forall|a: int, b: int| 0 <= a < b < after.len() implies !same_path(
                #[trigger] after[a].0,
                #[trigger] after[b].0,
            ) by {
                assert(after[a].0 == entries[a].0);
                assert(after[b].0 == entries[b].0);
            }
        },
        None => {
            let kept = if entries.len() >= MAX_FINGERPRINTS {
                entries.drop_first()
            } else {
                entries
            };
            assert forall|j: int| 0 <= j < kept.len() implies exists|m: int|
                0 <= m < entries.len() && #[trigger] kept[j] == entries[m] by {
                if entries.len() >= MAX_FINGERPRINTS {
                    assert(kept[j] == entries[j + 1]);
                } else {
                    assert(kept[j] == entries[j]);
                }
            }
            assert forall|j: int| 0 <= j < kept.len() implies !same_path(
                #[trigger] after[j].0,
                path,
            ) by {
                assert(after[j] == kept[j]);
                let m = choose|m: int| 0 <= m < entries.len() && kept[j] == entries[m];
                assert(!same_path(entries[m].0, path));
            }
            lemma_index_found(after, path, kept.len() as int);
            assert forall|a: int, b: int| 0 <= a < b < after.len() implies !same_path(
                #[trigger] after[a].0,
                #[trigger] after[b].0,
            ) by {
                assert(after[a] == kept[a]);
                if b < kept.len() {
                    assert(after[b] == kept[b]);
                    if entries.len() >= MAX_FINGERPRINTS {
                        assert(kept[a] == entries[a + 1]);
                        assert(kept[b] == entries[b + 1]);
                    } else {
                        assert(kept[a] == entries[a]);
                        assert(kept[b] == entries[b]);
                    }
                } else {
                    let m = choose|m: int| 0 <= m < entries.len() && kept[a] == entries[m];
                    assert(!same_path(entries[m].0, path));
                }
            }
        },
    }
}

/// The recently changed paths with the look each had when last seen, oldest
/// first.
pub struct Fingerprints {
    pub entries: Vec<(Vec<u8>, Vec<Stamp>)>,
}

impl View for Fingerprints {
    type V = Seq<(Seq<u8>, Seq<Stamp>)>;

    open spec fn view(&self) -> Seq<(Seq<u8>, Seq<Stamp>)> {
        self.entries@.map_values(|e: (Vec<u8>, Vec<Stamp>)| (e.0@, e.1@))
    }
}

impl Fingerprints {
    pub fn new() -> (r: Self)
        ensures
            r@ == Seq::<(Seq<u8>, Seq<Stamp>)>::empty(),
    {
        let r = Fingerprints { entries: Vec::new() };
        proof {
            assert(r@ =~= Seq::<(Seq<u8>, Seq<Stamp>)>::empty());
        }
        r
    }

    pub fn len(&self) -> (r: usize)
        ensures
            r == self@.len(),
    {
        self.entries.len()
    }

    fn find(&self, path: &[u8]) -> (r: Option<usize>)
        ensures
            match r {
                Some(i) => index_of(self@, path@) == Some(i as int),
                None => index_of(self@, path@) is None,
            },
    {
        let ghost m = self@;
        let mut i: usize = 0;
        while i < self.entries.len()
            invariant
                i <= self.entries@.len(),
                m == self@,
                m.len() == self.entries@.len(),
                forall|j: int| 0 <= j < i ==> !same_path(#[trigger] m[j].0, path@),
            decreases self.entries@.len() - i,
        {
            proof {
                assert(m[i as int].0 == self.entries@[i as int].0@);
            }
            if paths_equal(self.entries[i].0.as_slice(), path) {
                proof {
                    lemma_index_found(m, path@, i as int);
                }
                return Some(i);
            }
            i = i + 1;
        }
        proof {
            lemma_index_of(m, path@);
        }
        None
    }

    /// The look last stored for `path`.
    pub fn look(&self, path: &[u8]) -> (r: Option<Vec<Stamp>>)
        ensures
            match look_of(self@, path@) {
                Some(look) => r is Some && r->0@ == look,
                None => r is None,
            },
    {
        proof {
            lemma_index_of(self@, path@);
        }
        match self.find(path) {
            Some(i) => {
                proof {
                    assert(index_of(self@, path@) == Some(i as int));
                    assert(self@[i as int].1 == self.entries@[i as int].1@);
                }
                let found = copy_stamps(&self.entries[i].1);
                proof {
                    assert(look_of(self@, path@) == Some(found@));
                }
                Some(found)
            },
            None => None,
        }
    }

    /// Store the look `next` for `path`.
    pub fn insert(&mut self, path: Vec<u8>, next: Vec<Stamp>)
        ensures
            final(self)@ == remembered(old(self)@, path@, next@),
    {
        let ghost before = self@;
        proof {
            lemma_index_of(before, path@);
        }
        match self.find(path.as_slice()) {
            Some(i) => {
                let key = crate::project_library::copy_bytes(self.entries[i].0.as_slice());
                let ghost k = key@;
                let ghost v = next@;
                self.entries.set(i, (key, next));
                proof {
                    assert(self@ =~= before.update(i as int, (k, v)));
                }
            },
            None => {
                if self.entries.len() >= MAX_FINGERPRINTS {
                    self.entries.remove(0);
                    proof {
                        assert(self@ =~= before.drop_first());
                    }
                }
                let ghost kept = self@;
                let ghost e = (path@, next@);
                self.entries.push((path, next));
                proof {
                    assert(self@ =~= kept.push(e));
                }
            },
        }
    }

    /// Whether `path` now looks different from when it was last seen; the
    /// new look is remembered when it does.
    pub fn changed(&mut self, path: &[u8], next: Vec<Stamp>) -> (r: bool)
        ensures
            r == (look_of(old(self)@, path@) != Some(next@)),
            r ==> final(self)@ == remembered(old(self)@, path@, next@),
            !r ==> final(self)@ == old(self)@,
    {
        match self.look(path) {
            Some(previous) => {
                if same_fingerprint(&previous, &next) {
                    return false;
                }
            },
            None => {},
        }
        self.insert(crate::project_library::copy_bytes(path), next);
        true
    }
}

/// What a changed path means for the refresh.
#[derive(Clone, Copy, Debug, PartialEq, Eq, Structural)]
pub enum ChangeKind {
    Ignore,
    Worktree,
    Git,
    GitRoot,
}

/// The three directories a worktree's refresh watches, as absolute paths.
#[derive(Clone, Debug, PartialEq, Eq)]
pub struct WatchRoots {
    pub worktree: Vec<u8>,
    pub private_git: Vec<u8>,
    pub common_git: Vec<u8>,
}

/// The entries of a Git directory whose change matters to a refresh.
pub open spec fn git_entry_names() -> Seq<&'static str> {
    seq![
        "HEAD",
        "index",
        "config",
        "config.worktree",
        "packed-refs",
        "shallow",
        "commondir",
        "gitdir",
        "locked",
        "ORIG_HEAD",
        "FETCH_HEAD",
        "MERGE_HEAD",
        "MERGE_MSG",
        "MERGE_MODE",
        "AUTO_MERGE",
        "CHERRY_PICK_HEAD",
        "REVERT_HEAD",
        "BISECT_LOG",
        "BISECT_START",
        "refs",
        "objects",
        "worktrees",
        "rebase-merge",
        "rebase-apply",
        "sequencer",
        "info",
    ]
}

fn git_entries() -> (r: Vec<&'static str>)
    ensures
        r@ == git_entry_names(),
{
    vec![
        "HEAD",
        "index",
        "config",
        "config.worktree",
        "packed-refs",
        "shallow",
        "commondir",
        "gitdir",
        "locked",
        "ORIG_HEAD",
        "FETCH_HEAD",
        "MERGE_HEAD",
        "MERGE_MSG",
        "MERGE_MODE",
        "AUTO_MERGE",
        "CHERRY_PICK_HEAD",
        "REVERT_HEAD",
        "BISECT_LOG",
        "BISECT_START",
        "refs",
        "objects",
        "worktrees",
        "rebase-merge",
        "rebase-apply",
        "sequencer",
        "info",
    ]
}

/// The UTF-8 bytes of a text.
pub open spec fn text_bytes(s: &str) -> Seq<u8> {
    vstd::utf8::encode_utf8(s@)
}

pub open spec fn ends_with(c: Seq<u8>, suffix: Seq<u8>) -> bool {
    suffix.len() <= c.len() && c.subrange(c.len() - suffix.len(), c.len() as int) == suffix
}

/// A component naming an entry of a Git directory that matters.
pub open spec fn names_git_entry(c: Seq<u8>) -> bool {
    exists|i: int| 0 <= i < git_entry_names().len() && c == text_bytes(git_entry_names()[i])
}

/// What a change below a Git directory means, by the components below it:
/// the directory itself, a lock file anywhere (a transient of Git's own
/// writes), or an entry that Git state is read from.
pub open spec fn kind_below(rel: Seq<Seq<u8>>) -> ChangeKind {
    if rel.len() == 0 {
        ChangeKind::GitRoot
    } else if exists|i: int| 0 <= i < rel.len() && ends_with(#[trigger] rel[i], text_bytes(".lock")) {
        ChangeKind::Ignore
    } else if names_git_entry(rel[0]) || (rel.len() >= 3 && rel[0] == text_bytes("logs") && rel[1]
        == text_bytes("refs") && rel[2] == text_bytes("stash")) {
        ChangeKind::Git
    } else {
        ChangeKind::Ignore
    }
}

/// What a change at `path` means. The private Git directory is checked
/// first because it may live inside the common one's administration tree.
pub open spec fn classify_path(worktree: Seq<u8>, private_git: Seq<u8>, common_git: Seq<u8>, path: Seq<u8>) -> ChangeKind {
    if starts_with(path, private_git) {
        kind_below(components_below(path, private_git))
    } else if starts_with(path, common_git) {
        kind_below(components_below(path, common_git))
    } else if components(path) == components(worktree).push(text_bytes(".git")) {
        ChangeKind::Git
    } else if starts_with(path, worktree) {
        ChangeKind::Worktree
    } else {
        ChangeKind::Ignore
    }
}

fn bytes_end_with(c: &[u8], suffix: &[u8]) -> (r: bool)
    ensures
        r == ends_with(c@, suffix@),
{
    if suffix.len() > c.len() {
        return false;
    }
    let start = c.len() - suffix.len();
    let total = c.len();
    let mut i: usize = 0;
    while i < suffix.len()
        invariant
            i <= suffix@.len(),
            total == c@.len(),
            start + suffix@.len() == c@.len(),
            forall|k: int| 0 <= k < i ==> c@[start + k] == suffix@[k],
        decreases suffix@.len() - i,
    {
        if c[start + i] != suffix[i] {
            proof {
                assert(c@.subrange(start as int, c@.len() as int)[i as int] != suffix@[i as int]);
            }
            return false;
        }
        i = i + 1;
    }
    proof {
        assert(c@.subrange(start as int, c@.len() as int) =~= suffix@);
    }
    true
}

/// Whether the components `pc` begin with the components `rc`.
fn begins_with(pc: &Vec<Vec<u8>>, rc: &Vec<Vec<u8>>) -> (r: bool)
    ensures
        r == (views(rc@).len() <= views(pc@).len() && views(pc@).subrange(
            0,
            views(rc@).len() as int,
        ) == views(rc@)),
{
    if rc.len() > pc.len() {
        return false;
    }
    let mut i: usize = 0;
    while i < rc.len()
        invariant
            i <= rc@.len(),
            rc@.len() <= pc@.len(),
            forall|k: int| 0 <= k < i ==> pc@[k]@ == rc@[k]@,
        decreases rc@.len() - i,
    {
        if !crate::paths::bytes_equal(pc[i].as_slice(), rc[i].as_slice()) {
            proof {
                assert(views(pc@).subrange(0, views(rc@).len() as int)[i as int] != views(
                    rc@,
                )[i as int]);
            }
            return false;
        }
        i = i + 1;
    }
    proof {
        assert(views(pc@).subrange(0, views(rc@).len() as int) =~= views(rc@));
    }
    true
}

fn kind_of_components(pc: &Vec<Vec<u8>>, start: usize) -> (r: ChangeKind)
    requires
        start <= pc@.len(),
    ensures
        r == kind_below(views(pc@).subrange(start as int, pc@.len() as int)),
{
    let ghost rel = views(pc@).subrange(start as int, pc@.len() as int);
    let n = pc.len();
    if start == n {
        return ChangeKind::GitRoot;
    }
    let lock = ".lock".as_bytes();
    let mut i: usize = start;
    while i < n
        invariant
            start <= i <= n,
            n == pc@.len(),
            rel == views(pc@).subrange(start as int, n as int),
            lock@ == text_bytes(".lock"),
            forall|k: int| 0 <= k < i - start ==> !ends_with(#[trigger] rel[k], text_bytes(".lock")),
        decreases n - i,
    {
        proof {
            assert(rel[i - start] == pc@[i as int]@);
        }
        if bytes_end_with(pc[i].as_slice(), lock) {
            return ChangeKind::Ignore;
        }
        i = i + 1;
    }
    let first = pc[start].as_slice();
    proof {
        assert(rel[0] == first@);
    }
    let names = git_entries();
    let mut j: usize = 0;
    while j < names.len()
        invariant
            j <= names@.len(),
            names@ == git_entry_names(),
            rel == views(pc@).subrange(start as int, pc@.len() as int),
            rel.len() > 0,
            rel[0] == first@,
            forall|k: int| 0 <= k < rel.len() ==> !ends_with(#[trigger] rel[k], text_bytes(".lock")),
            forall|k: int| 0 <= k < j ==> first@ != text_bytes(#[trigger] names@[k]),
        decreases names@.len() - j,
    {
        if crate::paths::bytes_equal(first, names[j].as_bytes()) {
            proof {
                assert(first@ == text_bytes(git_entry_names()[j as int]));
                assert(names_git_entry(rel[0]));
            }
            return ChangeKind::Git;
        }
        j = j + 1;
    }
    if n - start >= 3 && crate::paths::bytes_equal(first, "logs".as_bytes())
        && crate::paths::bytes_equal(pc[start + 1].as_slice(), "refs".as_bytes())
        && crate::paths::bytes_equal(pc[start + 2].as_slice(), "stash".as_bytes()) {
        proof {
            assert(rel[1] == pc@[start + 1]@);
            assert(rel[2] == pc@[start + 2]@);
        }
        return ChangeKind::Git;
    }
    proof {
        if rel.len() >= 3 {
            assert(rel[1] == pc@[start + 1]@);
            assert(rel[2] == pc@[start + 2]@);
        }
    }
    ChangeKind::Ignore
}

impl WatchRoots {
    /// What a change at `path` means for the refresh.
    pub fn classify(&self, path: &[u8]) -> (r: ChangeKind)
        ensures
            r == classify_path(self.worktree@, self.private_git@, self.common_git@, path@),
    {
        let pc = path_components(path);
        let private = path_components(self.private_git.as_slice());
        if begins_with(&pc, &private) {
            return kind_of_components(&pc, private.len());
        }
        let common = path_components(self.common_git.as_slice());
        if begins_with(&pc, &common) {
            return kind_of_components(&pc, common.len());
        }
        let worktree = path_components(self.worktree.as_slice());
        let git = ".git".as_bytes();
        if worktree.len() < pc.len() && pc.len() - worktree.len() == 1 && begins_with(&pc, &worktree)
            && crate::paths::bytes_equal(pc[worktree.len()].as_slice(), git) {
            proof {
                assert(views(pc@) =~= views(worktree@).push(text_bytes(".git")));
            }
            return ChangeKind::Git;
        }
        proof {
            if components(path@) == components(self.worktree@).push(text_bytes(".git")) {
                assert(views(pc@).subrange(0, views(worktree@).len() as int) =~= views(worktree@));
                assert(views(pc@)[views(worktree@).len() as int] == text_bytes(".git"));
            }
        }
        if begins_with(&pc, &worktree) {
            ChangeKind::Worktree
        } else {
            ChangeKind::Ignore
        }
    }
}

/// Whether a directory may receive a watch, as far as the roots decide; the
/// rest is for the worktree's ignore policy.
#[derive(Clone, Copy, Debug, PartialEq, Eq, Structural)]
pub enum Eligibility {
    Eligible,
    Refused,
    AskPolicy,
}

/// Metadata directories are those of the two Git directories; a worktree
/// directory is eligible when it is the worktree itself, and otherwise only
/// inside it, outside both Git directories and not the `.git` entry, as the
/// policy decides.
pub open spec fn eligibility_of(
    worktree: Seq<u8>,
    private_git: Seq<u8>,
    common_git: Seq<u8>,
    path: Seq<u8>,
    metadata: bool,
) -> Eligibility {
    if metadata {
        let kind = classify_path(worktree, private_git, common_git, path);
        if kind == ChangeKind::Git || kind == ChangeKind::GitRoot {
            Eligibility::Eligible
        } else {
            Eligibility::Refused
        }
    } else if same_path(path, worktree) {
        Eligibility::Eligible
    } else if !starts_with(path, worktree) || starts_with(path, private_git) || starts_with(
        path,
        common_git,
    ) || components(path) == components(worktree).push(text_bytes(".git")) {
        Eligibility::Refused
    } else {
        Eligibility::AskPolicy
    }
}

impl WatchRoots {
    /// Whether the directory at `path` may receive a watch; `metadata` asks
    /// for a Git-directory watch.
    pub fn eligibility(&self, path: &[u8], metadata: bool) -> (r: Eligibility)
        ensures
            r == eligibility_of(self.worktree@, self.private_git@, self.common_git@, path@, metadata),
    {
        if metadata {
            return match self.classify(path) {
                ChangeKind::Git | ChangeKind::GitRoot => Eligibility::Eligible,
                _ => Eligibility::Refused,
            };
        }
        if paths_equal(path, self.worktree.as_slice()) {
            return Eligibility::Eligible;
        }
        let pc = path_components(path);
        let worktree = path_components(self.worktree.as_slice());
        let private = path_components(self.private_git.as_slice());
        let common = path_components(self.common_git.as_slice());
        let git = ".git".as_bytes();
        let git_entry = worktree.len() < pc.len() && pc.len() - worktree.len() == 1 && begins_with(
            &pc,
            &worktree,
        ) && crate::paths::bytes_equal(pc[worktree.len()].as_slice(), git);
        proof {
            if git_entry {
                assert(views(pc@) =~= views(worktree@).push(text_bytes(".git")));
            }
            if components(path@) == components(self.worktree@).push(text_bytes(".git")) {
                assert(views(pc@).subrange(0, views(worktree@).len() as int) =~= views(worktree@));
                assert(views(pc@)[views(worktree@).len() as int] == text_bytes(".git"));
            }
        }
        if !begins_with(&pc, &worktree) || begins_with(&pc, &private) || begins_with(&pc, &common)
            || git_entry {
            Eligibility::Refused
        } else {
            Eligibility::AskPolicy
        }
    }
}

/// Whether a change at `path` can change which worktree paths Git ignores:
/// an ignore file the policy reads, a `.gitignore` inside the worktree, the
/// index, or the exclude and configuration files.
pub open spec fn policy_path_of(
    worktree: Seq<u8>,
    private_git: Seq<u8>,
    common_git: Seq<u8>,
    ignore_files: Seq<Seq<u8>>,
    path: Seq<u8>,
) -> bool {
    ||| exists|i: int| 0 <= i < ignore_files.len() && same_path(#[trigger] ignore_files[i], path)
    ||| starts_with(path, worktree) && components(path).len() > 0 && components(path).last()
        == text_bytes(".gitignore")
    ||| components(path) == components(private_git).push(text_bytes("index"))
    ||| components(path) == components(common_git).push(text_bytes("info")).push(
        text_bytes("exclude"),
    )
    ||| components(path) == components(common_git).push(text_bytes("config"))
    ||| components(path) == components(private_git).push(text_bytes("config.worktree"))
}

/// Whether `path` is one of the three watched roots.
pub open spec fn is_root_of(worktree: Seq<u8>, private_git: Seq<u8>, common_git: Seq<u8>, path: Seq<u8>) -> bool {
    same_path(path, worktree) || same_path(path, private_git) || same_path(path, common_git)
}

/// Whether the components `pc` are those of `base` followed by `name`.
fn is_entry(pc: &Vec<Vec<u8>>, base: &Vec<Vec<u8>>, name: &str) -> (r: bool)
    ensures
        r == (views(pc@) == views(base@).push(text_bytes(name))),
{
    let r = base.len() < pc.len() && pc.len() - base.len() == 1 && begins_with(pc, base)
        && crate::paths::bytes_equal(pc[base.len()].as_slice(), name.as_bytes());
    proof {
        if r {
            assert(views(pc@) =~= views(base@).push(text_bytes(name)));
        }
        if views(pc@) == views(base@).push(text_bytes(name)) {
            assert(views(pc@).subrange(0, views(base@).len() as int) =~= views(base@));
            assert(views(pc@)[views(base@).len() as int] == text_bytes(name));
        }
    }
    r
}

/// Whether the components `pc` are those of `base` followed by `first` and
/// `second`.
fn is_entry_below(pc: &Vec<Vec<u8>>, base: &Vec<Vec<u8>>, first: &str, second: &str) -> (r: bool)
    ensures
        r == (views(pc@) == views(base@).push(text_bytes(first)).push(text_bytes(second))),
{
    let r = base.len() < pc.len() && pc.len() - base.len() == 2 && begins_with(pc, base)
        && crate::paths::bytes_equal(pc[base.len()].as_slice(), first.as_bytes())
        && crate::paths::bytes_equal(pc[base.len() + 1].as_slice(), second.as_bytes());
    proof {
        let grown = views(base@).push(text_bytes(first)).push(text_bytes(second));
        if r {
            assert(views(pc@) =~= grown);
        }
        if views(pc@) == grown {
            assert(views(pc@).subrange(0, views(base@).len() as int) =~= views(base@));
            assert(views(pc@)[views(base@).len() as int] == text_bytes(first));
            assert(views(pc@)[views(base@).len() as int + 1] == text_bytes(second));
        }
    }
    r
}

impl WatchRoots {
    /// Whether a change at `path` can change which worktree paths Git
    /// ignores; `ignore_files` are the ignore files the policy reads.
    pub fn policy_path(&self, path: &[u8], ignore_files: &Vec<Vec<u8>>) -> (r: bool)
        ensures
            r == policy_path_of(
                self.worktree@,
                self.private_git@,
                self.common_git@,
                views(ignore_files@),
                path@,
            ),
    {
        let n = ignore_files.len();
        let mut i: usize = 0;
        while i < n
            invariant
                i <= n,
                n == ignore_files@.len(),
                forall|k: int| 0 <= k < i ==> !same_path(#[trigger] views(ignore_files@)[k], path@),
            decreases n - i,
        {
            if paths_equal(ignore_files[i].as_slice(), path) {
                proof {
                    assert(same_path(views(ignore_files@)[i as int], path@));
                }
                return true;
            }
            i = i + 1;
        }
        let pc = path_components(path);
        let worktree = path_components(self.worktree.as_slice());
        let private = path_components(self.private_git.as_slice());
        let common = path_components(self.common_git.as_slice());
        let last_is_ignore_file = pc.len() > 0 && crate::paths::bytes_equal(
            pc[pc.len() - 1].as_slice(),
            ".gitignore".as_bytes(),
        );
        proof {
            if pc.len() > 0 {
                assert(views(pc@).last() == pc@[pc.len() - 1]@);
            }
        }
        (begins_with(&pc, &worktree) && last_is_ignore_file) || is_entry(&pc, &private, "index")
            || is_entry_below(&pc, &common, "info", "exclude") || is_entry(&pc, &common, "config")
            || is_entry(&pc, &private, "config.worktree")
    }

    /// Whether `path` is one of the three watched roots.
    pub fn is_root(&self, path: &[u8]) -> (r: bool)
        ensures
            r == is_root_of(self.worktree@, self.private_git@, self.common_git@, path@),
    {
        paths_equal(path, self.worktree.as_slice()) || paths_equal(path, self.private_git.as_slice())
            || paths_equal(path, self.common_git.as_slice())
    }
}

/// A lock file anywhere below a watched Git directory is Git writing, never
/// a change to refresh for.
pub proof fn law_git_locks_are_ignored(
    worktree: Seq<u8>,
    private_git: Seq<u8>,
    common_git: Seq<u8>,
    path: Seq<u8>,
)
    requires
        starts_with(path, private_git) || starts_with(path, common_git),
        components(path).len() > 0,
        ends_with(components(path).last(), text_bytes(".lock")),
        !same_path(path, private_git),
        !same_path(path, common_git),
    ensures
        classify_path(worktree, private_git, common_git, path) == ChangeKind::Ignore,
{
    let root = if starts_with(path, private_git) {
        private_git
    } else {
        common_git
    };
    let rel = components_below(path, root);
    assert(rel.len() > 0) by {
        if rel.len() == 0 {
            assert(components(path) =~= components(root));
        }
    }
    assert(rel[rel.len() - 1] == components(path).last());
}

/// The entries of a Git directory that Git reads its state from: the
/// current branch and the special heads, the index, the configuration, the
/// refs and objects, the worktree administration, and the state of merges,
/// rebases, cherry-picks, reverts and bisections.
pub open spec fn git_state_entry(c: Seq<u8>) -> bool {
    c == text_bytes("HEAD")
        || c == text_bytes("ORIG_HEAD")
        || c == text_bytes("FETCH_HEAD")
        || c == text_bytes("MERGE_HEAD")
        || c == text_bytes("MERGE_MSG")
        || c == text_bytes("MERGE_MODE")
        || c == text_bytes("AUTO_MERGE")
        || c == text_bytes("CHERRY_PICK_HEAD")
        || c == text_bytes("REVERT_HEAD")
        || c == text_bytes("BISECT_LOG")
        || c == text_bytes("BISECT_START")
        || c == text_bytes("index")
        || c == text_bytes("config")
        || c == text_bytes("config.worktree")
        || c == text_bytes("packed-refs")
        || c == text_bytes("shallow")
        || c == text_bytes("commondir")
        || c == text_bytes("gitdir")
        || c == text_bytes("locked")
        || c == text_bytes("refs")
        || c == text_bytes("objects")
        || c == text_bytes("worktrees")
        || c == text_bytes("rebase-merge")
        || c == text_bytes("rebase-apply")
        || c == text_bytes("sequencer")
        || c == text_bytes("info")
}

proof fn lemma_git_state_entry_listed(c: Seq<u8>)
    requires
        git_state_entry(c),
    ensures
        names_git_entry(c),
{
    if c == text_bytes("HEAD") {
        assert(git_entry_names()[0] == "HEAD");
    }
    if c == text_bytes("ORIG_HEAD") {
        assert(git_entry_names()[9] == "ORIG_HEAD");
    }
    if c == text_bytes("FETCH_HEAD") {
        assert(git_entry_names()[10] == "FETCH_HEAD");
    }
    if c == text_bytes("MERGE_HEAD") {
        assert(git_entry_names()[11] == "MERGE_HEAD");
    }
    if c == text_bytes("MERGE_MSG") {
        assert(git_entry_names()[12] == "MERGE_MSG");
    }
    if c == text_bytes("MERGE_MODE") {
        assert(git_entry_names()[13] == "MERGE_MODE");
    }
    if c == text_bytes("AUTO_MERGE") {
        assert(git_entry_names()[14] == "AUTO_MERGE");
    }
    if c == text_bytes("CHERRY_PICK_HEAD") {
        assert(git_entry_names()[15] == "CHERRY_PICK_HEAD");
    }
    if c == text_bytes("REVERT_HEAD") {
        assert(git_entry_names()[16] == "REVERT_HEAD");
    }
    if c == text_bytes("BISECT_LOG") {
        assert(git_entry_names()[17] == "BISECT_LOG");
    }
    if c == text_bytes("BISECT_START") {
        assert(git_entry_names()[18] == "BISECT_START");
    }
    if c == text_bytes("index") {
        assert(git_entry_names()[1] == "index");
    }
    if c == text_bytes("config") {
        assert(git_entry_names()[2] == "config");
    }
    if c == text_bytes("config.worktree") {
        assert(git_entry_names()[3] == "config.worktree");
    }
    if c == text_bytes("packed-refs") {
        assert(git_entry_names()[4] == "packed-refs");
    }
    if c == text_bytes("shallow") {
        assert(git_entry_names()[5] == "shallow");
    }
    if c == text_bytes("commondir") {
        assert(git_entry_names()[6] == "commondir");
    }
    if c == text_bytes("gitdir") {
        assert(git_entry_names()[7] == "gitdir");
    }
    if c == text_bytes("locked") {
        assert(git_entry_names()[8] == "locked");
    }
    if c == text_bytes("refs") {
        assert(git_entry_names()[19] == "refs");
    }
    if c == text_bytes("objects") {
        assert(git_entry_names()[20] == "objects");
    }
    if c == text_bytes("worktrees") {
        assert(git_entry_names()[21] == "worktrees");
    }
    if c == text_bytes("rebase-merge") {
        assert(git_entry_names()[22] == "rebase-merge");
    }
    if c == text_bytes("rebase-apply") {
        assert(git_entry_names()[23] == "rebase-apply");
    }
    if c == text_bytes("sequencer") {
        assert(git_entry_names()[24] == "sequencer");
    }
    if c == text_bytes("info") {
        assert(git_entry_names()[25] == "info");
    }
}

/// A change to an entry Git reads its state from, anywhere below it and
/// not a lock file, refreshes the repository, in the private Git directory
/// and in the common one alike (such as the shared `config` after a new
/// remote is added from a linked worktree).
pub proof fn law_git_state_changes_refresh(
    worktree: Seq<u8>,
    private_git: Seq<u8>,
    common_git: Seq<u8>,
    path: Seq<u8>,
)
    ensures
        starts_with(path, private_git) && components_below(path, private_git).len() > 0
            && git_state_entry(components_below(path, private_git)[0]) && (forall|i: int|
            0 <= i < components_below(path, private_git).len() ==> !ends_with(
                #[trigger] components_below(path, private_git)[i],
                text_bytes(".lock"),
            )) ==> classify_path(worktree, private_git, common_git, path) == ChangeKind::Git,
        !starts_with(path, private_git) && starts_with(path, common_git) && components_below(
            path,
            common_git,
        ).len() > 0 && git_state_entry(components_below(path, common_git)[0]) && (forall|i: int|
            0 <= i < components_below(path, common_git).len() ==> !ends_with(
                #[trigger] components_below(path, common_git)[i],
                text_bytes(".lock"),
            )) ==> classify_path(worktree, private_git, common_git, path) == ChangeKind::Git,
{
    let a = components_below(path, private_git);
    let b = components_below(path, common_git);
    if a.len() > 0 && git_state_entry(a[0]) {
        lemma_git_state_entry_listed(a[0]);
    }
    if b.len() > 0 && git_state_entry(b[0]) {
        lemma_git_state_entry_listed(b[0]);
    }
}

} // verus!
