//! Preference values that are plain text: project display names, the folder
//! name shown when there is none, and commit drafts.

use vstd::prelude::*;
use crate::paths::{file_name, is_absolute, is_normal_component, path_components, path_is_absolute, paths_equal, same_path, views, lemma_same_path_is_equivalence};
use crate::project_library::{copy_bytes, ProjectLibrary};
use crate::library_model::{count_groups, count_projects, remember, NodeModel};
use crate::library_laws::law_remember_keeps_groups;
use crate::markdown_blocks::{decimal, push_decimal};
use crate::text::{
    breaks_line, char_is_control, chars_of, lossy, lossy_text, push_text, trim, trimmed, utf8_len,
};

verus! {

/// The longest display name, in UTF-8 bytes, a project or group may carry.
pub const MAX_PROJECT_NAME_BYTES: usize = 128;

pub open spec fn empty_name_message() -> Seq<char> {
    "Enter a name for this project, or restore its folder name."@
}

pub open spec fn long_name_message() -> Seq<char> {
    "Use a project name of at most 128 bytes."@
}

pub open spec fn multiline_name_message() -> Seq<char> {
    "Use a project name on a single line, without control characters."@
}

/// Why a display name cannot be used, or `None` when it can. The name is
/// judged after trimming.
pub open spec fn project_name_refusal(name: Seq<char>) -> Option<Seq<char>> {
    let t = trim(name);
    if t.len() == 0 {
        Some(empty_name_message())
    } else if utf8_len(t) > MAX_PROJECT_NAME_BYTES {
        Some(long_name_message())
    } else if exists|i: int| 0 <= i < t.len() && breaks_line(#[trigger] t[i]) {
        Some(multiline_name_message())
    } else {
        None
    }
}

/// Whether any character of `s` would break a one-line label.
pub fn has_line_break(s: &str) -> (r: bool)
    ensures
        r == exists|i: int| 0 <= i < s@.len() && breaks_line(#[trigger] s@[i]),
{
    let chars = chars_of(s);
    let mut i: usize = 0;
    while i < chars.len()
        invariant
            i <= chars@.len(),
            chars@ == s@,
            forall|k: int| 0 <= k < i ==> !breaks_line(#[trigger] s@[k]),
        decreases chars@.len() - i,
    {
        let c = chars[i];
        if char_is_control(c) || c == '\u{2028}' || c == '\u{2029}' {
            assert(breaks_line(s@[i as int]));
            return true;
        }
        i = i + 1;
    }
    false
}

/// A display name is presentation only: it needs to fit on one line and stay
/// distinguishable from an empty field. It is never used as a filesystem path.
pub fn validate_project_name(name: &str) -> (r: Result<(), String>)
    ensures
        match project_name_refusal(name@) {
            None => r is Ok,
            Some(message) => r is Err && r->Err_0@ == message,
        },
{
    let t = trimmed(name);
    let text = t.as_str();
    if text.is_empty() {
        return Err("Enter a name for this project, or restore its folder name.".to_owned());
    }
    if text.as_bytes().len() > MAX_PROJECT_NAME_BYTES {
        return Err("Use a project name of at most 128 bytes.".to_owned());
    }
    let broken = has_line_break(text);
    assert(text@ == trim(name@));
    if broken {
        return Err("Use a project name on a single line, without control characters.".to_owned());
    }
    Ok(())
}

/// A commit message being written, kept per worktree.
#[derive(Clone, Debug, PartialEq, Eq)]
pub struct CommitDraft {
    pub title: String,
    pub description: String,
}

impl Default for CommitDraft {
    fn default() -> (r: Self)
        ensures
            r.title@.len() == 0,
            r.description@.len() == 0,
    {
        CommitDraft { title: String::new(), description: String::new() }
    }
}

/// The message a draft commits: the title, and after a blank line the
/// description when there is one; nothing else is added or taken away.
pub open spec fn draft_message(title: Seq<char>, description: Seq<char>) -> Seq<char> {
    if description.len() == 0 {
        title
    } else {
        title + "\n\n"@ + description
    }
}

impl CommitDraft {
    /// Only the separator is supplied by the application. Whitespace, comment
    /// lines, Markdown, and trailing newlines belong to the user's message.
    pub fn message(&self) -> (r: String)
        ensures
            r@ == draft_message(self.title@, self.description@),
    {
        if self.description.as_str().is_empty() {
            self.title.clone()
        } else {
            let mut message = self.title.clone();
            push_text(&mut message, "\n\n");
            push_text(&mut message, self.description.as_str());
            message
        }
    }

    pub fn is_empty(&self) -> (r: bool)
        ensures
            r == (self.title@.len() == 0 && self.description@.len() == 0),
    {
        self.title.as_str().is_empty() && self.description.as_str().is_empty()
    }
}

/// The bytes a project is named after when the user has not chosen a name:
/// its folder name, or the whole path when it has none.
pub open spec fn folder_bytes(path: Seq<u8>) -> Seq<u8> {
    match file_name(path) {
        Some(name) => name,
        None => path,
    }
}

fn normal_component(c: &[u8]) -> (r: bool)
    ensures
        r == is_normal_component(c@),
{
    let root = c.len() == 1 && c[0] == crate::paths::SEPARATOR;
    let current = c.len() == 1 && c[0] == crate::paths::DOT;
    let parent = c.len() == 2 && c[0] == crate::paths::DOT && c[1] == crate::paths::DOT;
    proof {
        if c@.len() == 1 {
            assert(c@ == seq![c@[0]]);
        }
        if c@.len() == 2 {
            assert(c@ == seq![c@[0], c@[1]]);
        }
    }
    !root && !current && !parent
}

/// The name a project shows when the user has not chosen one. Filenames can
/// hold arbitrary bytes, so fall back to the whole path rather than dropping it.
pub fn directory_name(path: &[u8]) -> (r: String)
    ensures
        r@ == lossy_text(folder_bytes(path@)),
        vstd::utf8::valid_utf8(folder_bytes(path@)) ==> r@ == vstd::utf8::decode_utf8(
            folder_bytes(path@),
        ),
{
    let parts = path_components(path);
    if parts.len() > 0 {
        let last = parts.len() - 1;
        proof {
            assert(views(parts@)[last as int] == parts@[last as int]@);
        }
        if normal_component(parts[last].as_slice()) {
            return lossy(parts[last].as_slice());
        }
    }
    lossy(path)
}

/// How many recent repositories are remembered.
pub const MAX_RECENT: usize = 10;

/// The entries of `rest` that stay recent, in order: absolute paths not yet
/// seen, at most `room` of them.
pub open spec fn kept_recent(seen: Seq<Seq<u8>>, rest: Seq<Seq<u8>>, room: nat) -> Seq<Seq<u8>>
    decreases rest.len(),
{
    if room == 0 || rest.len() == 0 {
        seq![]
    } else if is_absolute(rest[0]) && !(exists|i: int|
        0 <= i < seen.len() && same_path(#[trigger] seen[i], rest[0])) {
        seq![rest[0]] + kept_recent(seen.push(rest[0]), rest.drop_first(), (room - 1) as nat)
    } else {
        kept_recent(seen, rest.drop_first(), room)
    }
}

/// The recent repositories after opening `path`: it comes first, followed by
/// the earlier ones that are absolute and not repeated, ten in all at most.
pub open spec fn recent_after(path: Seq<u8>, current: Seq<Seq<u8>>) -> Seq<Seq<u8>> {
    seq![path] + kept_recent(seq![path], current, (MAX_RECENT - 1) as nat)
}

fn seen_before(seen: &Vec<Vec<u8>>, p: &[u8]) -> (r: bool)
    ensures
        r == exists|i: int| 0 <= i < seen@.len() && same_path(#[trigger] views(seen@)[i], p@),
{
    let mut i: usize = 0;
    while i < seen.len()
        invariant
            i <= seen@.len(),
            forall|k: int| 0 <= k < i ==> !same_path(#[trigger] views(seen@)[k], p@),
        decreases seen@.len() - i,
    {
        if paths_equal(seen[i].as_slice(), p) {
            proof {
                assert(views(seen@)[i as int] == seen@[i as int]@);
            }
            return true;
        }
        proof {
            assert(views(seen@)[i as int] == seen@[i as int]@);
        }
        i = i + 1;
    }
    false
}

/// The recent repositories after opening `path`, which comes first.
pub fn recent_after_opening(path: &[u8], current: &Vec<Vec<u8>>) -> (r: Vec<Vec<u8>>)
    ensures
        views(r@) == recent_after(path@, views(current@)),
{
    let mut recent: Vec<Vec<u8>> = Vec::new();
    recent.push(copy_bytes(path));
    let ghost all = views(current@);
    let mut room: usize = MAX_RECENT - 1;
    let mut i: usize = 0;
    proof {
        assert(views(recent@) =~= seq![path@]);
        assert(all.skip(0) =~= all);
    }
    while i < current.len() && room > 0
        invariant
            i <= current@.len(),
            all == views(current@),
            room <= MAX_RECENT - 1,
            views(recent@).len() >= 1,
            views(recent@)[0] == path@,
            views(recent@) + kept_recent(views(recent@), all.skip(i as int), room as nat)
                == recent_after(path@, all),
        decreases current@.len() - i,
    {
        let ghost seen = views(recent@);
        let ghost rest = all.skip(i as int);
        proof {
            assert(rest[0] == current@[i as int]@);
            assert(rest.drop_first() =~= all.skip(i + 1));
        }
        let p = current[i].as_slice();
        if path_is_absolute(p) && !seen_before(&recent, p) {
            recent.push(copy_bytes(p));
            proof {
                assert(views(recent@) =~= seen.push(rest[0]));
                assert(seq![rest[0]] + kept_recent(seen.push(rest[0]), rest.drop_first(), (room - 1) as nat)
                    == kept_recent(seen, rest, room as nat));
                assert(views(recent@) + kept_recent(views(recent@), all.skip(i + 1), (room - 1) as nat)
                    =~= seen + kept_recent(seen, rest, room as nat));
            }
            room = room - 1;
        }
        i = i + 1;
    }
    proof {
        let rest = all.skip(i as int);
        if room == 0 {
            assert(kept_recent(views(recent@), rest, 0) =~= Seq::<Seq<u8>>::empty());
        } else {
            assert(rest.len() == 0);
            assert(kept_recent(views(recent@), rest, room as nat) =~= Seq::<Seq<u8>>::empty());
        }
        assert(views(recent@) + Seq::<Seq<u8>>::empty() =~= views(recent@));
    }
    recent
}

/// The recent list opens with the repository just opened, holds at most ten
/// paths, and never the same path twice.
pub proof fn law_recent_list_is_bounded_and_unique(path: Seq<u8>, current: Seq<Seq<u8>>)
    ensures
        recent_after(path, current)[0] == path,
        recent_after(path, current).len() <= MAX_RECENT,
        forall|i: int, j: int|
            0 <= i < j < recent_after(path, current).len() ==> !same_path(
                #[trigger] recent_after(path, current)[i],
                #[trigger] recent_after(path, current)[j],
            ),
{
    lemma_kept_recent(seq![path], current, (MAX_RECENT - 1) as nat);
    let r = recent_after(path, current);
    let k = kept_recent(seq![path], current, (MAX_RECENT - 1) as nat);
    assert forall|i: int, j: int| 0 <= i < j < r.len() implies !same_path(
        #[trigger] r[i],
        #[trigger] r[j],
    ) by {
        lemma_same_path_is_equivalence();
        assert(r[j] == k[j - 1]);
        if i == 0 {
            assert(r[0] == seq![path][0]);
        } else {
            assert(r[i] == k[i - 1]);
        }
    }
}

/// What stays recent is at most `room` paths, none seen before and no two
/// the same.
proof fn lemma_kept_recent(seen: Seq<Seq<u8>>, rest: Seq<Seq<u8>>, room: nat)
    ensures
        kept_recent(seen, rest, room).len() <= room,
        forall|i: int, s: int|
            0 <= i < kept_recent(seen, rest, room).len() && 0 <= s < seen.len() ==> !same_path(
                #[trigger] seen[s],
                #[trigger] kept_recent(seen, rest, room)[i],
            ),
        forall|i: int, j: int|
            0 <= i < j < kept_recent(seen, rest, room).len() ==> !same_path(
                #[trigger] kept_recent(seen, rest, room)[i],
                #[trigger] kept_recent(seen, rest, room)[j],
            ),
    decreases rest.len(),
{
    lemma_same_path_is_equivalence();
    if room == 0 || rest.len() == 0 {
    } else if is_absolute(rest[0]) && !(exists|i: int|
        0 <= i < seen.len() && same_path(#[trigger] seen[i], rest[0])) {
        let next = seen.push(rest[0]);
        lemma_kept_recent(next, rest.drop_first(), (room - 1) as nat);
        let tail = kept_recent(next, rest.drop_first(), (room - 1) as nat);
        let k = kept_recent(seen, rest, room);
        assert(k == seq![rest[0]] + tail);
        assert forall|i: int, s: int| 0 <= i < k.len() && 0 <= s < seen.len() implies !same_path(
            #[trigger] seen[s],
            #[trigger] k[i],
        ) by {
            if i == 0 {
                assert(k[0] == rest[0]);
            } else {
                assert(k[i] == tail[i - 1]);
                assert(next[s] == seen[s]);
            }
        }
        assert forall|i: int, j: int| 0 <= i < j < k.len() implies !same_path(
            #[trigger] k[i],
            #[trigger] k[j],
        ) by {
            assert(k[j] == tail[j - 1]);
            if i == 0 {
                assert(k[0] == rest[0]);
                assert(next[seen.len() as int] == rest[0]);
            } else {
                assert(k[i] == tail[i - 1]);
            }
        }
    } else {
        lemma_kept_recent(seen, rest.drop_first(), room);
    }
}

/// The saved recent repositories as they are kept: absolute paths, each
/// once, ten at most, in saved order.
pub fn saved_recent(saved: &Vec<Vec<u8>>) -> (r: Vec<Vec<u8>>)
    ensures
        views(r@) == kept_recent(seq![], views(saved@), MAX_RECENT as nat),
{
    let mut recent: Vec<Vec<u8>> = Vec::new();
    let ghost all = views(saved@);
    let mut room: usize = MAX_RECENT;
    let mut i: usize = 0;
    proof {
        assert(views(recent@) =~= Seq::<Seq<u8>>::empty());
        assert(all.skip(0) =~= all);
        assert(Seq::<Seq<u8>>::empty() + kept_recent(seq![], all, MAX_RECENT as nat) =~= kept_recent(
            seq![],
            all,
            MAX_RECENT as nat,
        ));
    }
    while i < saved.len() && room > 0
        invariant
            i <= saved@.len(),
            all == views(saved@),
            room <= MAX_RECENT,
            views(recent@) + kept_recent(views(recent@), all.skip(i as int), room as nat)
                == kept_recent(seq![], all, MAX_RECENT as nat),
        decreases saved@.len() - i,
    {
        let ghost seen = views(recent@);
        let ghost rest = all.skip(i as int);
        proof {
            assert(rest[0] == saved@[i as int]@);
            assert(rest.drop_first() =~= all.skip(i + 1));
        }
        let p = saved[i].as_slice();
        if path_is_absolute(p) && !seen_before(&recent, p) {
            recent.push(copy_bytes(p));
            proof {
                assert(views(recent@) =~= seen.push(rest[0]));
                assert(seq![rest[0]] + kept_recent(seen.push(rest[0]), rest.drop_first(), (room - 1) as nat)
                    == kept_recent(seen, rest, room as nat));
                assert(views(recent@) + kept_recent(views(recent@), all.skip(i + 1), (room - 1) as nat)
                    =~= seen + kept_recent(seen, rest, room as nat));
            }
            room = room - 1;
        }
        i = i + 1;
    }
    proof {
        let rest = all.skip(i as int);
        if room == 0 {
            assert(kept_recent(views(recent@), rest, 0) =~= Seq::<Seq<u8>>::empty());
        } else {
            assert(rest.len() == 0);
            assert(kept_recent(views(recent@), rest, room as nat) =~= Seq::<Seq<u8>>::empty());
        }
        assert(views(recent@) + Seq::<Seq<u8>>::empty() =~= views(recent@));
    }
    recent
}

/// How many projects can carry a custom name. Reaching the bound refuses a
/// new name instead of dropping one.
pub const MAX_PROJECT_NAMES: usize = 128;

pub open spec fn relative_name_path_message() -> Seq<char> {
    "A project path must be absolute to carry a name"@
}

pub open spec fn name_limit_message() -> Seq<char> {
    "Up to 128 projects can carry a custom name. Restore a folder name before adding another."@
}

pub open spec fn too_many_names_message() -> Seq<char> {
    "Too many saved project names"@
}

pub open spec fn relative_saved_name_message() -> Seq<char> {
    "Saved project path must be absolute"@
}

pub open spec fn repeated_name_message() -> Seq<char> {
    "Duplicate saved project name path"@
}

pub open spec fn names_view(v: Seq<(Vec<u8>, String)>) -> Seq<(Seq<u8>, Seq<char>)> {
    v.map_values(|e: (Vec<u8>, String)| (e.0@, e.1@))
}

/// The first entry naming the project at `path`.
pub open spec fn name_index(names: Seq<(Seq<u8>, Seq<char>)>, path: Seq<u8>) -> Option<int>
    decreases names.len(),
{
    if names.len() == 0 {
        None
    } else {
        match name_index(names.drop_last(), path) {
            Some(i) => Some(i),
            None => if same_path(names.last().0, path) {
                Some(names.len() - 1)
            } else {
                None
            },
        }
    }
}

/// The custom names after naming the project at `path` (`None` restores
/// its folder name), or why that is refused.
pub open spec fn names_after(names: Seq<(Seq<u8>, Seq<char>)>, path: Seq<u8>, name: Option<Seq<char>>) -> Result<
    Seq<(Seq<u8>, Seq<char>)>,
    Seq<char>,
> {
    if !is_absolute(path) {
        Err(relative_name_path_message())
    } else {
        match name {
            Some(n) => if project_name_refusal(n) is Some {
                Err(project_name_refusal(n)->0)
            } else {
                match name_index(names, path) {
                    Some(i) => Ok(names.update(i, (names[i].0, trim(n)))),
                    None => if names.len() >= MAX_PROJECT_NAMES {
                        Err(name_limit_message())
                    } else {
                        Ok(names.push((path, trim(n))))
                    },
                }
            },
            None => match name_index(names, path) {
                Some(i) => Ok(names.remove(i)),
                None => Ok(names),
            },
        }
    }
}

pub open spec fn text_of(name: Option<&str>) -> Option<Seq<char>> {
    match name {
        Some(n) => Some(n@),
        None => None,
    }
}

proof fn lemma_name_index(names: Seq<(Seq<u8>, Seq<char>)>, path: Seq<u8>)
    ensures
        name_index(names, path) matches Some(i) ==> 0 <= i < names.len() && same_path(
            names[i].0,
            path,
        ) && forall|j: int| 0 <= j < i ==> !same_path(#[trigger] names[j].0, path),
        name_index(names, path) is None ==> forall|j: int|
            0 <= j < names.len() ==> !same_path(#[trigger] names[j].0, path),
    decreases names.len(),
{
    if names.len() > 0 {
        lemma_name_index(names.drop_last(), path);
        assert forall|j: int| 0 <= j < names.len() - 1 implies names[j] == names.drop_last()[j] by {}
    }
}

fn find_name(names: &Vec<(Vec<u8>, String)>, path: &[u8]) -> (r: Option<usize>)
    ensures
        match r {
            Some(i) => i < names@.len() && name_index(names_view(names@), path@) == Some(i as int),
            None => name_index(names_view(names@), path@) is None,
        },
{
    let ghost all = names_view(names@);
    proof {
        lemma_name_index(all, path@);
    }
    let n = names.len();
    let mut i: usize = 0;
    while i < n
        invariant
            i <= n,
            n == names@.len(),
            all == names_view(names@),
            forall|j: int| 0 <= j < i ==> !same_path(#[trigger] all[j].0, path@),
        decreases n - i,
    {
        if paths_equal(names[i].0.as_slice(), path) {
            proof {
                lemma_name_index(all, path@);
                assert(all[i as int].0 == names@[i as int].0@);
                if name_index(all, path@) is None {
                    assert(!same_path(all[i as int].0, path@));
                } else {
                    let k = name_index(all, path@)->0;
                    if k < i {
                        assert(!same_path(all[k].0, path@));
                    } else if k > i {
                        assert(!same_path(all[i as int].0, path@));
                    }
                }
            }
            return Some(i);
        }
        proof {
            assert(all[i as int].0 == names@[i as int].0@);
        }
        i = i + 1;
    }
    proof {
        lemma_name_index(all, path@);
        if name_index(all, path@) is Some {
            let k = name_index(all, path@)->0;
            assert(!same_path(all[k].0, path@));
        }
    }
    None
}

/// Names the project at `path`, or with `None` restores its folder name.
pub fn name_project(names: &mut Vec<(Vec<u8>, String)>, path: &[u8], name: Option<&str>) -> (r: Result<(), String>)
    ensures
        match names_after(names_view(old(names)@), path@, text_of(name)) {
            Ok(after) => r is Ok && names_view(final(names)@) == after,
            Err(message) => r is Err && r->Err_0@ == message && final(names)@ == old(names)@,
        },
{
    if !path_is_absolute(path) {
        return Err("A project path must be absolute to carry a name".to_owned());
    }
    let ghost before = names_view(names@);
    match name {
        Some(n) => {
            validate_project_name(n)?;
            let t = trimmed(n);
            match find_name(names, path) {
                Some(i) => {
                    let kept = copy_bytes(names[i].0.as_slice());
                    names.set(i, (kept, t));
                    proof {
                        assert(names_view(names@) =~= before.update(i as int, (before[i as int].0, trim(n@))));
                    }
                },
                None => {
                    if names.len() >= MAX_PROJECT_NAMES {
                        return Err(
                            "Up to 128 projects can carry a custom name. Restore a folder name before adding another.".to_owned(),
                        );
                    }
                    names.push((copy_bytes(path), t));
                    proof {
                        assert(names_view(names@) =~= before.push((path@, trim(n@))));
                    }
                },
            }
        },
        None => {
            match find_name(names, path) {
                Some(i) => {
                    names.remove(i);
                    proof {
                        assert(names_view(names@) =~= before.remove(i as int));
                    }
                },
                None => {},
            }
        },
    }
    Ok(())
}

/// The saved custom names as they load, each checked in saved order: an
/// absolute path, a usable name (kept trimmed), a path not named before.
pub open spec fn checked_names(entries: Seq<(Seq<u8>, Seq<char>)>) -> Result<
    Seq<(Seq<u8>, Seq<char>)>,
    Seq<char>,
>
    decreases entries.len(),
{
    if entries.len() == 0 {
        Ok(seq![])
    } else {
        match checked_names(entries.drop_last()) {
            Err(e) => Err(e),
            Ok(done) => {
                let p = entries.last().0;
                let n = entries.last().1;
                if !is_absolute(p) {
                    Err(relative_saved_name_message())
                } else if project_name_refusal(n) is Some {
                    Err(project_name_refusal(n)->0)
                } else if name_index(done, p) is Some {
                    Err(repeated_name_message())
                } else {
                    Ok(done.push((p, trim(n))))
                }
            },
        }
    }
}

/// The saved custom names, or why the section is refused rather than
/// silently shortened.
pub open spec fn saved_names_of(entries: Seq<(Seq<u8>, Seq<char>)>) -> Result<
    Seq<(Seq<u8>, Seq<char>)>,
    Seq<char>,
> {
    if entries.len() > MAX_PROJECT_NAMES {
        Err(too_many_names_message())
    } else {
        checked_names(entries)
    }
}

proof fn lemma_checked_names_fail(entries: Seq<(Seq<u8>, Seq<char>)>, k: int)
    requires
        0 <= k <= entries.len(),
        checked_names(entries.take(k)) is Err,
    ensures
        checked_names(entries) == checked_names(entries.take(k)),
    decreases entries.len() - k,
{
    if k < entries.len() {
        assert(entries.take(k + 1).drop_last() =~= entries.take(k));
        lemma_checked_names_fail(entries, k + 1);
    } else {
        assert(entries.take(k) =~= entries);
    }
}

/// Loads the saved custom names.
pub fn saved_names(entries: &Vec<(Vec<u8>, String)>) -> (r: Result<Vec<(Vec<u8>, String)>, String>)
    ensures
        match saved_names_of(names_view(entries@)) {
            Ok(names) => r is Ok && names_view(r->Ok_0@) == names,
            Err(message) => r is Err && r->Err_0@ == message,
        },
{
    let n = entries.len();
    if n > MAX_PROJECT_NAMES {
        return Err("Too many saved project names".to_owned());
    }
    let ghost all = names_view(entries@);
    let mut names: Vec<(Vec<u8>, String)> = Vec::new();
    let mut i: usize = 0;
    proof {
        assert(all.take(0) =~= Seq::<(Seq<u8>, Seq<char>)>::empty());
        assert(names_view(names@) =~= Seq::<(Seq<u8>, Seq<char>)>::empty());
    }
    while i < n
        invariant
            i <= n,
            n == entries@.len(),
            n <= MAX_PROJECT_NAMES,
            all == names_view(entries@),
            checked_names(all.take(i as int)) == Ok::<Seq<(Seq<u8>, Seq<char>)>, Seq<char>>(
                names_view(names@),
            ),
        decreases n - i,
    {
        let ghost done = names_view(names@);
        proof {
            assert(all.take(i + 1).drop_last() =~= all.take(i as int));
            assert(all.take(i + 1).last() == all[i as int]);
            assert(all[i as int] == (entries@[i as int].0@, entries@[i as int].1@));
        }
        let path = entries[i].0.as_slice();
        let name = entries[i].1.as_str();
        if !path_is_absolute(path) {
            proof {
                lemma_checked_names_fail(all, i + 1);
            }
            return Err("Saved project path must be absolute".to_owned());
        }
        match validate_project_name(name) {
            Ok(()) => {},
            Err(e) => {
                proof {
                    lemma_checked_names_fail(all, i + 1);
                }
                return Err(e);
            },
        }
        match find_name(&names, path) {
            Some(_) => {
                proof {
                    lemma_checked_names_fail(all, i + 1);
                }
                return Err("Duplicate saved project name path".to_owned());
            },
            None => {},
        }
        names.push((copy_bytes(path), trimmed(name)));
        proof {
            assert(names_view(names@) =~= done.push((path@, trim(name@))));
        }
        i = i + 1;
    }
    proof {
        assert(all.take(n as int) =~= all);
    }
    Ok(names)
}

/// No two custom names belong to the same project.
pub open spec fn distinct_names(names: Seq<(Seq<u8>, Seq<char>)>) -> bool {
    forall|i: int, j: int|
        0 <= i < j < names.len() ==> !same_path(#[trigger] names[i].0, #[trigger] names[j].0)
}

/// Naming a project reads back: afterwards the project carries the trimmed
/// name, or with `None` no custom name at all, and no two names belong to
/// the same project.
pub proof fn law_names_read_back(names: Seq<(Seq<u8>, Seq<char>)>, path: Seq<u8>, name: Option<Seq<char>>)
    requires
        distinct_names(names),
        names_after(names, path, name) is Ok,
    ensures
        distinct_names(names_after(names, path, name)->Ok_0),
        name matches Some(n) ==> (name_index(names_after(names, path, name)->Ok_0, path) matches Some(
            i,
        ) && names_after(names, path, name)->Ok_0[i].1 == trim(n)),
        name is None ==> name_index(names_after(names, path, name)->Ok_0, path) is None,
{
    lemma_same_path_is_equivalence();
    lemma_name_index(names, path);
    let after = names_after(names, path, name)->Ok_0;
    lemma_name_index(after, path);
    match name {
        Some(n) => match name_index(names, path) {
            Some(i) => {
                assert(after == names.update(i, (names[i].0, trim(n))));
                assert forall|a: int, b: int| 0 <= a < b < after.len() implies !same_path(
                    #[trigger] after[a].0,
                    #[trigger] after[b].0,
                ) by {
                    assert(after[a].0 == names[a].0);
                    assert(after[b].0 == names[b].0);
                }
                assert(same_path(after[i].0, path));
                match name_index(after, path) {
                    Some(k) => {
                        if k < i {
                            assert(after[k].0 == names[k].0);
                        } else if k > i {
                            assert(!same_path(after[i].0, path));
                        }
                    },
                    None => {
                        assert(!same_path(after[i].0, path));
                    },
                }
            },
            None => {
                assert(after == names.push((path, trim(n))));
                let last = names.len() as int;
                assert forall|a: int, b: int| 0 <= a < b < after.len() implies !same_path(
                    #[trigger] after[a].0,
                    #[trigger] after[b].0,
                ) by {
                    assert(after[a] == names[a]);
                    if b < last {
                        assert(after[b] == names[b]);
                    } else {
                        assert(!same_path(names[a].0, path));
                    }
                }
                assert(same_path(after[last].0, path));
                match name_index(after, path) {
                    Some(k) => {
                        if k < last {
                            assert(after[k] == names[k]);
                        }
                    },
                    None => {
                        assert(!same_path(after[last].0, path));
                    },
                }
            },
        },
        None => match name_index(names, path) {
            Some(i) => {
                assert(after == names.remove(i));
                assert forall|a: int, b: int| 0 <= a < b < after.len() implies !same_path(
                    #[trigger] after[a].0,
                    #[trigger] after[b].0,
                ) by {
                    let a2 = if a < i { a } else { a + 1 };
                    let b2 = if b < i { b } else { b + 1 };
                    assert(after[a] == names[a2]);
                    assert(after[b] == names[b2]);
                }
                if name_index(after, path) is Some {
                    let k = name_index(after, path)->0;
                    let k2 = if k < i { k } else { k + 1 };
                    assert(after[k] == names[k2]);
                    if k2 < i {
                        assert(!same_path(names[k2].0, names[i].0));
                    } else {
                        assert(!same_path(names[i].0, names[k2].0));
                    }
                }
            },
            None => {},
        },
    }
}

pub open spec fn relative_draft_message() -> Seq<char> {
    "Draft worktree must be absolute"@
}

/// A draft as text: its title and description.
pub open spec fn draft_view(d: CommitDraft) -> (Seq<char>, Seq<char>) {
    (d.title@, d.description@)
}

pub open spec fn drafts_view(v: Seq<(Vec<u8>, CommitDraft)>) -> Seq<(Seq<u8>, (Seq<char>, Seq<char>))> {
    v.map_values(|e: (Vec<u8>, CommitDraft)| (e.0@, draft_view(e.1)))
}

pub open spec fn blank_draft(d: (Seq<char>, Seq<char>)) -> bool {
    d.0.len() == 0 && d.1.len() == 0
}

/// The first draft kept for the worktree at `path`.
pub open spec fn draft_index(drafts: Seq<(Seq<u8>, (Seq<char>, Seq<char>))>, path: Seq<u8>) -> Option<int>
    decreases drafts.len(),
{
    if drafts.len() == 0 {
        None
    } else {
        match draft_index(drafts.drop_last(), path) {
            Some(i) => Some(i),
            None => if same_path(drafts.last().0, path) {
                Some(drafts.len() - 1)
            } else {
                None
            },
        }
    }
}

/// The drafts after keeping `draft` for the worktree at `path`: a blank
/// draft forgets the worktree's draft; another replaces it or is added.
pub open spec fn with_draft(
    drafts: Seq<(Seq<u8>, (Seq<char>, Seq<char>))>,
    path: Seq<u8>,
    draft: (Seq<char>, Seq<char>),
) -> Seq<(Seq<u8>, (Seq<char>, Seq<char>))> {
    match draft_index(drafts, path) {
        Some(i) => if blank_draft(draft) {
            drafts.remove(i)
        } else {
            drafts.update(i, (drafts[i].0, draft))
        },
        None => if blank_draft(draft) {
            drafts
        } else {
            drafts.push((path, draft))
        },
    }
}

/// The saved drafts as they load: worktrees with absolute paths and drafts
/// with text, a later draft for the same worktree replacing an earlier one.
pub open spec fn loaded_drafts(saved: Seq<(Seq<u8>, (Seq<char>, Seq<char>))>) -> Seq<(Seq<u8>, (Seq<char>, Seq<char>))>
    decreases saved.len(),
{
    if saved.len() == 0 {
        seq![]
    } else {
        let before = loaded_drafts(saved.drop_last());
        let last = saved.last();
        if is_absolute(last.0) && !blank_draft(last.1) {
            with_draft(before, last.0, last.1)
        } else {
            before
        }
    }
}

/// The drafts after saving `changes`, each worktree's draft in turn; refused
/// as a whole when a worktree path is not absolute.
pub open spec fn saved_drafts_after(
    drafts: Seq<(Seq<u8>, (Seq<char>, Seq<char>))>,
    changes: Seq<(Seq<u8>, (Seq<char>, Seq<char>))>,
) -> Result<Seq<(Seq<u8>, (Seq<char>, Seq<char>))>, Seq<char>>
    decreases changes.len(),
{
    if changes.len() == 0 {
        Ok(drafts)
    } else {
        match saved_drafts_after(drafts, changes.drop_last()) {
            Err(e) => Err(e),
            Ok(before) => if !is_absolute(changes.last().0) {
                Err(relative_draft_message())
            } else {
                Ok(with_draft(before, changes.last().0, changes.last().1))
            },
        }
    }
}

proof fn lemma_draft_index(drafts: Seq<(Seq<u8>, (Seq<char>, Seq<char>))>, path: Seq<u8>)
    ensures
        draft_index(drafts, path) matches Some(i) ==> 0 <= i < drafts.len() && same_path(
            drafts[i].0,
            path,
        ) && forall|j: int| 0 <= j < i ==> !same_path(#[trigger] drafts[j].0, path),
        draft_index(drafts, path) is None ==> forall|j: int|
            0 <= j < drafts.len() ==> !same_path(#[trigger] drafts[j].0, path),
    decreases drafts.len(),
{
    if drafts.len() > 0 {
        lemma_draft_index(drafts.drop_last(), path);
        assert forall|j: int| 0 <= j < drafts.len() - 1 implies drafts[j] == drafts.drop_last()[j] by {}
    }
}

fn copy_draft(d: &CommitDraft) -> (r: CommitDraft)
    ensures
        draft_view(r) == draft_view(*d),
{
    CommitDraft { title: d.title.clone(), description: d.description.clone() }
}

/// Keeps `draft` for the worktree at `path`.
fn keep_draft(drafts: &mut Vec<(Vec<u8>, CommitDraft)>, path: &[u8], draft: &CommitDraft)
    ensures
        drafts_view(final(drafts)@) == with_draft(drafts_view(old(drafts)@), path@, draft_view(*draft)),
{
    let ghost all = drafts_view(drafts@);
    proof {
        lemma_draft_index(all, path@);
    }
    let n = drafts.len();
    let mut i: usize = 0;
    while i < n
        invariant
            i <= n,
            n == drafts@.len(),
            all == drafts_view(drafts@),
            drafts@ == old(drafts)@,
            forall|j: int| 0 <= j < i ==> !same_path(#[trigger] all[j].0, path@),
        decreases n - i,
    {
        proof {
            assert(all[i as int].0 == drafts@[i as int].0@);
        }
        if paths_equal(drafts[i].0.as_slice(), path) {
            proof {
                lemma_draft_index(all, path@);
                match draft_index(all, path@) {
                    Some(k) => {
                        if k < i {
                            assert(!same_path(all[k].0, path@));
                        } else if k > i {
                            assert(!same_path(all[i as int].0, path@));
                        }
                    },
                    None => {
                        assert(!same_path(all[i as int].0, path@));
                    },
                }
            }
            if draft.is_empty() {
                drafts.remove(i);
                proof {
                    assert(drafts_view(drafts@) =~= all.remove(i as int));
                }
            } else {
                let kept = copy_bytes(drafts[i].0.as_slice());
                drafts.set(i, (kept, copy_draft(draft)));
                proof {
                    assert(drafts_view(drafts@) =~= all.update(i as int, (all[i as int].0, draft_view(*draft))));
                }
            }
            return;
        }
        i = i + 1;
    }
    proof {
        lemma_draft_index(all, path@);
        if draft_index(all, path@) is Some {
            let k = draft_index(all, path@)->0;
            assert(!same_path(all[k].0, path@));
        }
    }
    if !draft.is_empty() {
        drafts.push((copy_bytes(path), copy_draft(draft)));
        proof {
            assert(drafts_view(drafts@) =~= all.push((path@, draft_view(*draft))));
        }
    }
}

/// Loads the saved drafts.
pub fn loaded_commit_drafts(saved: &Vec<(Vec<u8>, CommitDraft)>) -> (r: Vec<(Vec<u8>, CommitDraft)>)
    ensures
        drafts_view(r@) == loaded_drafts(drafts_view(saved@)),
{
    let ghost all = drafts_view(saved@);
    let mut drafts: Vec<(Vec<u8>, CommitDraft)> = Vec::new();
    let n = saved.len();
    let mut i: usize = 0;
    proof {
        assert(all.take(0) =~= Seq::<(Seq<u8>, (Seq<char>, Seq<char>))>::empty());
        assert(drafts_view(drafts@) =~= Seq::<(Seq<u8>, (Seq<char>, Seq<char>))>::empty());
    }
    while i < n
        invariant
            i <= n,
            n == saved@.len(),
            all == drafts_view(saved@),
            drafts_view(drafts@) == loaded_drafts(all.take(i as int)),
        decreases n - i,
    {
        proof {
            assert(all.take(i + 1).drop_last() =~= all.take(i as int));
            assert(all.take(i + 1).last() == all[i as int]);
            assert(all[i as int] == (saved@[i as int].0@, draft_view(saved@[i as int].1)));
        }
        let path = saved[i].0.as_slice();
        if path_is_absolute(path) && !saved[i].1.is_empty() {
            keep_draft(&mut drafts, path, &saved[i].1);
        }
        i = i + 1;
    }
    proof {
        assert(all.take(n as int) =~= all);
    }
    drafts
}

/// Saves the drafts in `changes`, each replacing or forgetting its
/// worktree's draft; nothing is saved when a worktree path is relative.
pub fn save_commit_drafts(drafts: &mut Vec<(Vec<u8>, CommitDraft)>, changes: &Vec<(Vec<u8>, CommitDraft)>) -> (r: Result<(), String>)
    ensures
        match saved_drafts_after(drafts_view(old(drafts)@), drafts_view(changes@)) {
            Ok(after) => r is Ok && drafts_view(final(drafts)@) == after,
            Err(message) => r is Err && r->Err_0@ == message && final(drafts)@ == old(drafts)@,
        },
{
    let ghost start = drafts_view(drafts@);
    let ghost all = drafts_view(changes@);
    let n = changes.len();
    let mut j: usize = 0;
    while j < n
        invariant
            j <= n,
            n == changes@.len(),
            all == drafts_view(changes@),
            drafts@ == old(drafts)@,
            start == drafts_view(old(drafts)@),
            forall|k: int| 0 <= k < j ==> is_absolute(#[trigger] all[k].0),
        decreases n - j,
    {
        proof {
            assert(all[j as int].0 == changes@[j as int].0@);
        }
        if !path_is_absolute(changes[j].0.as_slice()) {
            proof {
                lemma_drafts_after_fails(start, all, j as int);
            }
            return Err("Draft worktree must be absolute".to_owned());
        }
        j = j + 1;
    }
    let mut i: usize = 0;
    proof {
        assert(all.take(0) =~= Seq::<(Seq<u8>, (Seq<char>, Seq<char>))>::empty());
    }
    while i < n
        invariant
            i <= n,
            n == changes@.len(),
            all == drafts_view(changes@),
            start == drafts_view(old(drafts)@),
            forall|k: int| 0 <= k < n ==> is_absolute(#[trigger] all[k].0),
            saved_drafts_after(start, all.take(i as int)) == Ok::<
                Seq<(Seq<u8>, (Seq<char>, Seq<char>))>,
                Seq<char>,
            >(drafts_view(drafts@)),
        decreases n - i,
    {
        proof {
            assert(all.take(i + 1).drop_last() =~= all.take(i as int));
            assert(all.take(i + 1).last() == all[i as int]);
            assert(all[i as int] == (changes@[i as int].0@, draft_view(changes@[i as int].1)));
            assert(is_absolute(all[i as int].0));
        }
        keep_draft(drafts, changes[i].0.as_slice(), &changes[i].1);
        i = i + 1;
    }
    proof {
        assert(all.take(n as int) =~= all);
    }
    Ok(())
}

/// A relative worktree among the changes refuses the save, unless an
/// earlier one already has.
proof fn lemma_drafts_after_fails(
    drafts: Seq<(Seq<u8>, (Seq<char>, Seq<char>))>,
    changes: Seq<(Seq<u8>, (Seq<char>, Seq<char>))>,
    j: int,
)
    requires
        0 <= j < changes.len(),
        !is_absolute(changes[j].0),
    ensures
        saved_drafts_after(drafts, changes) == Err::<Seq<(Seq<u8>, (Seq<char>, Seq<char>))>, Seq<char>>(
            relative_draft_message(),
        ) || (exists|k: int| 0 <= k < j && !is_absolute(#[trigger] changes[k].0)),
    decreases changes.len(),
{
    if j < changes.len() - 1 {
        lemma_drafts_after_fails(drafts, changes.drop_last(), j);
        if exists|k: int| 0 <= k < j && !is_absolute(#[trigger] changes.drop_last()[k].0) {
            let k = choose|k: int| 0 <= k < j && !is_absolute(#[trigger] changes.drop_last()[k].0);
            assert(changes[k] == changes.drop_last()[k]);
        } else {
            assert(changes.drop_last()[j] == changes[j]);
        }
    } else {
        match saved_drafts_after(drafts, changes.drop_last()) {
            Err(e) => {
                lemma_drafts_error_message(drafts, changes.drop_last());
            },
            Ok(_) => {},
        }
    }
}

/// The only refusal of a save is a relative worktree.
proof fn lemma_drafts_error_message(
    drafts: Seq<(Seq<u8>, (Seq<char>, Seq<char>))>,
    changes: Seq<(Seq<u8>, (Seq<char>, Seq<char>))>,
)
    ensures
        saved_drafts_after(drafts, changes) is Err ==> saved_drafts_after(drafts, changes)
            == Err::<Seq<(Seq<u8>, (Seq<char>, Seq<char>))>, Seq<char>>(relative_draft_message()),
    decreases changes.len(),
{
    if changes.len() > 0 {
        lemma_drafts_error_message(drafts, changes.drop_last());
    }
}

/// No two drafts belong to the same worktree.
pub open spec fn distinct_drafts(drafts: Seq<(Seq<u8>, (Seq<char>, Seq<char>))>) -> bool {
    forall|i: int, j: int|
        0 <= i < j < drafts.len() ==> !same_path(#[trigger] drafts[i].0, #[trigger] drafts[j].0)
}

/// Keeping a draft reads back: afterwards the worktree holds that draft, or
/// none when it is blank, and no two drafts belong to the same worktree.
pub proof fn law_drafts_read_back(
    drafts: Seq<(Seq<u8>, (Seq<char>, Seq<char>))>,
    path: Seq<u8>,
    draft: (Seq<char>, Seq<char>),
)
    requires
        distinct_drafts(drafts),
    ensures
        distinct_drafts(with_draft(drafts, path, draft)),
        !blank_draft(draft) ==> (draft_index(with_draft(drafts, path, draft), path) matches Some(
            i,
        ) && with_draft(drafts, path, draft)[i].1 == draft),
        blank_draft(draft) ==> draft_index(with_draft(drafts, path, draft), path) is None,
{
    lemma_same_path_is_equivalence();
    lemma_draft_index(drafts, path);
    let after = with_draft(drafts, path, draft);
    lemma_draft_index(after, path);
    match draft_index(drafts, path) {
        Some(i) => {
            if blank_draft(draft) {
                assert(after == drafts.remove(i));
                assert forall|a: int, b: int| 0 <= a < b < after.len() implies !same_path(
                    #[trigger] after[a].0,
                    #[trigger] after[b].0,
                ) by {
                    let a2 = if a < i { a } else { a + 1 };
                    let b2 = if b < i { b } else { b + 1 };
                    assert(after[a] == drafts[a2]);
                    assert(after[b] == drafts[b2]);
                }
                if draft_index(after, path) is Some {
                    let k = draft_index(after, path)->0;
                    let k2 = if k < i { k } else { k + 1 };
                    assert(after[k] == drafts[k2]);
                    if k2 < i {
                        assert(!same_path(drafts[k2].0, drafts[i].0));
                    } else {
                        assert(!same_path(drafts[i].0, drafts[k2].0));
                    }
                }
            } else {
                assert(after == drafts.update(i, (drafts[i].0, draft)));
                assert forall|a: int, b: int| 0 <= a < b < after.len() implies !same_path(
                    #[trigger] after[a].0,
                    #[trigger] after[b].0,
                ) by {
                    assert(after[a].0 == drafts[a].0);
                    assert(after[b].0 == drafts[b].0);
                }
                assert(same_path(after[i].0, path));
                match draft_index(after, path) {
                    Some(k) => {
                        if k < i {
                            assert(after[k].0 == drafts[k].0);
                        } else if k > i {
                            assert(!same_path(after[i].0, path));
                        }
                    },
                    None => {
                        assert(!same_path(after[i].0, path));
                    },
                }
            }
        },
        None => {
            if !blank_draft(draft) {
                assert(after == drafts.push((path, draft)));
                let last = drafts.len() as int;
                assert forall|a: int, b: int| 0 <= a < b < after.len() implies !same_path(
                    #[trigger] after[a].0,
                    #[trigger] after[b].0,
                ) by {
                    assert(after[a] == drafts[a]);
                    if b < last {
                        assert(after[b] == drafts[b]);
                    } else {
                        assert(!same_path(drafts[a].0, path));
                    }
                }
                assert(same_path(after[last].0, path));
                match draft_index(after, path) {
                    Some(k) => {
                        if k < last {
                            assert(after[k] == drafts[k]);
                        }
                    },
                    None => {
                        assert(!same_path(after[last].0, path));
                    },
                }
            }
        },
    }
}

/// The store version this build writes.
pub const STORE_VERSION: u32 = 6;

/// The first store version that saves the project list.
pub const PROJECT_LIST_VERSION: u32 = 5;

/// Whether this build reads a store: every version from the first to the
/// one it writes.
pub fn supported_version(version: u32) -> (r: bool)
    ensures
        r == (1 <= version <= STORE_VERSION),
{
    1 <= version && version <= STORE_VERSION
}

/// The list after remembering each path in order.
pub open spec fn remember_all(forest: Seq<NodeModel>, paths: Seq<Seq<u8>>) -> Seq<NodeModel>
    decreases paths.len(),
{
    if paths.len() == 0 {
        forest
    } else {
        remember(remember_all(forest, paths.drop_last()), paths.last()).1
    }
}

/// A store written before the project list starts it from the recent
/// repositories, so the list is useful at once; a later store keeps its list
/// as saved, even when the user emptied it.
pub fn seed_library(library: &mut ProjectLibrary, version: u32, recent: &Vec<Vec<u8>>)
    requires
        count_groups(old(library)@) < usize::MAX,
        count_projects(old(library)@) <= 256,
    ensures
        final(library)@ == if version < PROJECT_LIST_VERSION {
            remember_all(old(library)@, views(recent@))
        } else {
            old(library)@
        },
{
    if version >= PROJECT_LIST_VERSION {
        return;
    }
    let ghost start = library@;
    let n = recent.len();
    let mut i: usize = 0;
    proof {
        assert(views(recent@).take(0) =~= Seq::<Seq<u8>>::empty());
    }
    while i < n
        invariant
            i <= n,
            n == recent@.len(),
            count_groups(library@) == count_groups(start),
            count_groups(start) < usize::MAX,
            count_projects(library@) <= 256,
            library@ == remember_all(start, views(recent@).take(i as int)),
        decreases n - i,
    {
        proof {
            let paths = views(recent@);
            assert(paths.take(i + 1).drop_last() =~= paths.take(i as int));
            assert(paths.take(i + 1).last() == recent@[i as int]@);
            law_remember_keeps_groups(library@, recent@[i as int]@);
        }
        library.remember(recent[i].as_slice());
        i = i + 1;
    }
    proof {
        assert(views(recent@).take(n as int) =~= views(recent@));
    }
}

/// The most custom themes a store keeps.
pub const MAX_CUSTOM_THEMES: usize = 32;

/// What validating the saved custom themes reads of one: its identifier and
/// its name.
pub struct CustomTheme {
    pub id: u32,
    pub name: String,
}

pub open spec fn themes_view(themes: Seq<CustomTheme>) -> Seq<(u32, Seq<char>)> {
    themes.map_values(|t: CustomTheme| (t.id, t.name@))
}

pub open spec fn name_answers_view(answers: Seq<Result<(), String>>) -> Seq<Option<Seq<char>>> {
    answers.map_values(
        |a: Result<(), String>|
            match a {
                Ok(_) => None,
                Err(m) => Some(m@),
            },
    )
}

pub open spec fn theme_limit_message() -> Seq<char> {
    "Up to 32 custom themes can be saved. Delete one before adding another."@
}

pub open spec fn shared_theme_id_message(id: u32) -> Seq<char> {
    "Two custom themes share the id "@ + decimal(id as nat) + "."@
}

/// What checking the name of theme `i` answered; a name with no answer
/// counts as passing.
pub open spec fn name_answer(answers: Seq<Option<Seq<char>>>, i: int) -> Option<Seq<char>> {
    if 0 <= i < answers.len() {
        answers[i]
    } else {
        None
    }
}

/// The first problem among the themes, in order: an identifier an earlier
/// theme has, then what checking the theme's name answered.
pub open spec fn themes_problem(themes: Seq<(u32, Seq<char>)>, answers: Seq<Option<Seq<char>>>) -> Option<
    Seq<char>,
>
    decreases themes.len(),
{
    if themes.len() == 0 {
        None
    } else {
        match themes_problem(themes.drop_last(), answers) {
            Some(p) => Some(p),
            None => {
                let i = themes.len() - 1;
                if exists|j: int| 0 <= j < i && (#[trigger] themes[j]).0 == themes[i].0 {
                    Some(shared_theme_id_message(themes[i].0))
                } else {
                    name_answer(answers, i)
                }
            },
        }
    }
}

/// Why the saved custom themes cannot be loaded, or `None`.
pub open spec fn custom_themes_problem(themes: Seq<(u32, Seq<char>)>, answers: Seq<Option<Seq<char>>>) -> Option<
    Seq<char>,
> {
    if themes.len() > MAX_CUSTOM_THEMES {
        Some(theme_limit_message())
    } else {
        themes_problem(themes, answers)
    }
}

proof fn lemma_themes_problem_prefix(themes: Seq<(u32, Seq<char>)>, answers: Seq<Option<Seq<char>>>, k: int)
    requires
        0 <= k <= themes.len(),
        themes_problem(themes.take(k), answers) is Some,
    ensures
        themes_problem(themes, answers) == themes_problem(themes.take(k), answers),
    decreases themes.len() - k,
{
    if k < themes.len() {
        assert(themes.take(k + 1).drop_last() =~= themes.take(k));
        lemma_themes_problem_prefix(themes, answers, k + 1);
    } else {
        assert(themes.take(k) =~= themes);
    }
}

/// Refuse saved custom themes that would not load faithfully: more than the
/// bound, two with one identifier, or a name that checking refused.
/// `name_answers[i]` is what checking the name of theme `i` against the
/// themes before it answered.
pub fn validate_custom_themes(themes: &Vec<CustomTheme>, name_answers: &Vec<Result<(), String>>) -> (r: Result<
    (),
    String,
>)
    ensures
        match custom_themes_problem(themes_view(themes@), name_answers_view(name_answers@)) {
            Some(p) => r matches Err(e) && e@ == p,
            None => r is Ok,
        },
{
    if themes.len() > MAX_CUSTOM_THEMES {
        return Err("Up to 32 custom themes can be saved. Delete one before adding another.".to_owned());
    }
    let ghost all = themes_view(themes@);
    let ghost answers = name_answers_view(name_answers@);
    let n = themes.len();
    let mut i: usize = 0;
    proof {
        assert(all.take(0) =~= Seq::<(u32, Seq<char>)>::empty());
    }
    while i < n
        invariant
            i <= n,
            n == themes@.len(),
            n <= MAX_CUSTOM_THEMES,
            all == themes_view(themes@),
            answers == name_answers_view(name_answers@),
            themes_problem(all.take(i as int), answers) is None,
        decreases n - i,
    {
        let ghost grown = all.take(i + 1);
        proof {
            assert(grown.drop_last() =~= all.take(i as int));
            assert(grown.last() == all[i as int]);
            assert(grown.len() - 1 == i);
        }
        let id = themes[i].id;
        let mut j: usize = 0;
        while j < i
            invariant
                j <= i,
                i < n,
                n == themes@.len(),
                all == themes_view(themes@),
                id == all[i as int].0,
                grown == all.take(i + 1),
                n <= MAX_CUSTOM_THEMES,
                answers == name_answers_view(name_answers@),
                themes_problem(all.take(i as int), answers) is None,
                forall|m: int| 0 <= m < j ==> (#[trigger] all[m]).0 != id,
            decreases i - j,
        {
            proof {
                assert(all[j as int] == (themes@[j as int].id, themes@[j as int].name@));
            }
            if themes[j].id == id {
                proof {
                    assert(grown.drop_last() =~= all.take(i as int));
                    assert(grown.len() == i + 1);
                    assert(grown[j as int] == all[j as int]);
                    assert(exists|m: int| 0 <= m < i && (#[trigger] grown[m]).0 == grown[i as int].0);
                    lemma_themes_problem_prefix(all, answers, i + 1);
                }
                let mut message = "Two custom themes share the id ".to_owned();
                push_decimal(&mut message, id as usize);
                push_text(&mut message, ".");
                proof {
                    assert(message@ == shared_theme_id_message(id));
                    assert(themes_problem(grown, answers) == Some(shared_theme_id_message(grown[i as int].0)));
                    assert(custom_themes_problem(all, answers) == themes_problem(all, answers));
                }
                return Err(message);
            }
            j = j + 1;
        }
        proof {
            assert forall|m: int| 0 <= m < i implies (#[trigger] grown[m]).0 != grown[i as int].0 by {
                assert(grown[m] == all[m]);
            }
        }
        if i < name_answers.len() {
            if let Err(e) = &name_answers[i] {
                proof {
                    assert(answers[i as int] == Some(e@));
                    lemma_themes_problem_prefix(all, answers, i + 1);
                }
                return Err(e.clone());
            }
        }
        i = i + 1;
    }
    proof {
        assert(all.take(n as int) =~= all);
    }
    Ok(())
}

} // verus!
