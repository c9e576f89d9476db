//! The project list a user curates: known projects, named groups and the
//! nested order between them. This module owns the in-memory model and its
//! bounds only; a folder on disk is never moved, created or deleted here.

use vstd::prelude::*;
use crate::library_model;
use crate::library_model::{
    GroupEntryModel, GroupModel, GroupPlace, place_entry, parent_id, group_names,
    forest_height, node_height, lemma_height_bound, lemma_first_project_single,
    RowModel, saved_rows, group_rows, project_rows, lemma_places_len, group_entries,
    project_paths, lemma_found_subtree_bound, max_group_id, GroupEdit, apply_edit, edit_forest,
    holds_group, holds_project, lemma_holds_iff, lemma_first_index, lemma_no_first, group_holder,
    project_at, project_holder_below, group_with, group_holder_below, is_project_at, is_group_with,
    holds_project_below, holds_group_below, has_first, lemma_detach_succeeds, group_name_refusal, missing_group_message, first_problem,
    validation_error, unique_ids, unique_paths, group_ids, make_room, top_project,
    lemma_remove_top_project, is_first, node_problem, lemma_first_problem_append, NodeModel, ProjectPlace, first_place, first_project, group_places,
    lemma_first_place_append, lemma_first_project_append, lemma_group_places_append,
    lemma_prefix_places, lemma_project_places_append, project_places, group_part, project_part,
    name_key, group_keys, project_keys, sorted_rows, sorted_group_rows, sorted_project_rows,
    sorted_group_entries, sorted_group_entries_in,
};
use crate::sorting::{KeyedIndex, keyed_views, sort_entries, sort_keyed};
use crate::paths::{is_absolute, path_is_absolute, paths_equal, same_path, views};
use crate::preferences::{MAX_PROJECT_NAME_BYTES, validate_project_name};
use crate::text::{to_lowercase, trim, trimmed};

verus! {

/// Bounds keep one settings file small and one pane readable. Reaching a
/// limit refuses the new entry instead of discarding something the user made.
pub const MAX_GROUPS: usize = 64;

pub const MAX_PROJECTS: usize = 256;

/// Counted from a root group at depth one, so five levels can nest.
pub const MAX_DEPTH: usize = 5;

#[derive(Debug, PartialEq, Eq)]
pub enum ProjectNode {
    Group(ProjectGroup),
    Project(Vec<u8>),
}

/// A user-named folder in the project list. `collapsed` is view state, and it
/// is saved with the group so the pane looks the same after a restart.
#[derive(Debug, PartialEq, Eq)]
pub struct ProjectGroup {
    pub id: u32,
    pub name: String,
    pub collapsed: bool,
    pub nodes: Vec<ProjectNode>,
}

#[derive(Debug, PartialEq, Eq)]
pub struct ProjectLibrary {
    pub nodes: Vec<ProjectNode>,
}

pub open spec fn forest_view(nodes: Seq<ProjectNode>) -> Seq<NodeModel>
    decreases nodes,
{
    if nodes.len() == 0 {
        seq![]
    } else {
        let last = match nodes.last() {
            ProjectNode::Group(g) => NodeModel::Group(
                GroupModel {
                    id: g.id,
                    name: g.name@,
                    collapsed: g.collapsed,
                    children: forest_view(g.nodes@),
                },
            ),
            ProjectNode::Project(p) => NodeModel::Project(p@),
        };
        forest_view(nodes.drop_last()).push(last)
    }
}

impl View for ProjectGroup {
    type V = GroupModel;

    open spec fn view(&self) -> GroupModel {
        GroupModel {
            id: self.id,
            name: self.name@,
            collapsed: self.collapsed,
            children: forest_view(self.nodes@),
        }
    }
}

impl View for ProjectNode {
    type V = NodeModel;

    open spec fn view(&self) -> NodeModel {
        match self {
            ProjectNode::Group(g) => NodeModel::Group(g@),
            ProjectNode::Project(p) => NodeModel::Project(p@),
        }
    }
}

impl View for ProjectLibrary {
    type V = Seq<NodeModel>;

    open spec fn view(&self) -> Seq<NodeModel> {
        forest_view(self.nodes@)
    }
}

pub proof fn lemma_forest_view(nodes: Seq<ProjectNode>)
    ensures
        forest_view(nodes).len() == nodes.len(),
        forall|i: int| 0 <= i < nodes.len() ==> #[trigger] forest_view(nodes)[i] == nodes[i]@,
    decreases nodes.len(),
{
    if nodes.len() > 0 {
        lemma_forest_view(nodes.drop_last());
    }
}

/// Viewing a prefix one node longer adds that node's view.
pub proof fn lemma_forest_view_step(nodes: Seq<ProjectNode>, i: int)
    requires
        0 <= i < nodes.len(),
    ensures
        forest_view(nodes.take(i + 1)) == forest_view(nodes.take(i)).push(nodes[i]@),
        forest_view(nodes.take(i + 1)).drop_last() == forest_view(nodes.take(i)),
        forest_view(nodes.take(i + 1)).last() == nodes[i]@,
        forest_view(nodes.take(i + 1)).len() > 0,
{
    assert(nodes.take(i + 1).drop_last() =~= nodes.take(i));
    assert(forest_view(nodes.take(i)).push(nodes[i]@).drop_last() =~= forest_view(nodes.take(i)));
}

/// Viewing a prefix gives the prefix of the view.
pub proof fn lemma_forest_view_take(nodes: Seq<ProjectNode>, k: int)
    requires
        0 <= k <= nodes.len(),
    ensures
        forest_view(nodes.take(k)) == forest_view(nodes).take(k),
{
    lemma_forest_view(nodes);
    lemma_forest_view(nodes.take(k));
    assert(forest_view(nodes.take(k)) =~= forest_view(nodes).take(k));
}

pub proof fn lemma_forest_view_whole(nodes: Seq<ProjectNode>)
    ensures
        forest_view(nodes.take(nodes.len() as int)) == forest_view(nodes),
{
    assert(nodes.take(nodes.len() as int) =~= nodes);
}

/// How the places of a prefix grow by one node.
pub proof fn lemma_places_step(nodes: Seq<ProjectNode>, i: int, above: Seq<GroupModel>)
    requires
        0 <= i < nodes.len(),
    ensures
        forest_view(nodes.take(i + 1)) == forest_view(nodes).take(i + 1),
        forest_view(nodes).len() == nodes.len(),
        forest_view(nodes)[i] == nodes[i]@,
        group_places(forest_view(nodes.take(i + 1)), above) == group_places(
            forest_view(nodes.take(i)),
            above,
        ) + group_part(nodes[i]@, above),
        project_places(forest_view(nodes.take(i + 1)), above) == project_places(
            forest_view(nodes.take(i)),
            above,
        ) + project_part(nodes[i]@, above),
        match nodes[i] {
            ProjectNode::Group(g) => {
                &&& group_part(nodes[i]@, above) == seq![GroupPlace { group: g@, above: above }]
                    + group_places(forest_view(g.nodes@), above.push(g@))
                &&& project_part(nodes[i]@, above) == project_places(
                    forest_view(g.nodes@),
                    above.push(g@),
                )
            },
            ProjectNode::Project(p) => {
                &&& group_part(nodes[i]@, above) == Seq::<GroupPlace>::empty()
                &&& project_part(nodes[i]@, above) == seq![
                    ProjectPlace { path: p@, above: above },
                ]
            },
        },
{
    lemma_forest_view_step(nodes, i);
    lemma_forest_view_take(nodes, i + 1);
    lemma_forest_view(nodes);
}

/// The places of a forest are those of a prefix followed by those of the rest.
pub proof fn lemma_places_split(nodes: Seq<ProjectNode>, i: int, above: Seq<GroupModel>)
    requires
        0 <= i <= nodes.len(),
    ensures
        group_places(forest_view(nodes), above) == group_places(forest_view(nodes.take(i)), above)
            + group_places(forest_view(nodes).skip(i), above),
        project_places(forest_view(nodes), above) == project_places(
            forest_view(nodes.take(i)),
            above,
        ) + project_places(forest_view(nodes).skip(i), above),
{
    lemma_forest_view(nodes);
    lemma_forest_view_take(nodes, i);
    let f = forest_view(nodes);
    assert(f.take(i) + f.skip(i) =~= f);
    lemma_group_places_append(f.take(i), f.skip(i), above);
    lemma_project_places_append(f.take(i), f.skip(i), above);
}

/// A match found in a prefix of a forest is the first match of the forest.
pub proof fn lemma_found_in_prefix(nodes: Seq<ProjectNode>, i: int, above: Seq<GroupModel>)
    requires
        0 <= i <= nodes.len(),
    ensures
        forall|id: u32|
            #[trigger] first_place(group_places(forest_view(nodes.take(i)), above), id) is Some
                ==> first_place(group_places(forest_view(nodes), above), id) == first_place(
                group_places(forest_view(nodes.take(i)), above),
                id,
            ),
        forall|path: Seq<u8>|
            #[trigger] first_project(project_places(forest_view(nodes.take(i)), above), path)
                is Some ==> first_project(project_places(forest_view(nodes), above), path)
                == first_project(project_places(forest_view(nodes.take(i)), above), path),
{
    lemma_places_split(nodes, i, above);
    assert forall|id: u32|
        #[trigger] first_place(group_places(forest_view(nodes.take(i)), above), id)
            is Some implies first_place(group_places(forest_view(nodes), above), id)
        == first_place(group_places(forest_view(nodes.take(i)), above), id) by {
        lemma_first_place_append(
            group_places(forest_view(nodes.take(i)), above),
            group_places(forest_view(nodes).skip(i), above),
            id,
        );
    }
    assert forall|path: Seq<u8>|
        #[trigger] first_project(project_places(forest_view(nodes.take(i)), above), path)
            is Some implies first_project(project_places(forest_view(nodes), above), path)
        == first_project(project_places(forest_view(nodes.take(i)), above), path) by {
        lemma_first_project_append(
            project_places(forest_view(nodes.take(i)), above),
            project_places(forest_view(nodes).skip(i), above),
            path,
        );
    }
}

/// The first group match within one group node: the group itself, or the
/// first match among its descendants.
pub proof fn lemma_first_place_in_group(g: ProjectGroup, above: Seq<GroupModel>, id: u32)
    ensures
        first_place(group_part(NodeModel::Group(g@), above), id) == if g.id == id {
            Some(GroupPlace { group: g@, above: above })
        } else {
            first_place(group_places(forest_view(g.nodes@), above.push(g@)), id)
        },
{
    let head = seq![GroupPlace { group: g@, above: above }];
    let rest = group_places(forest_view(g.nodes@), above.push(g@));
    assert(group_part(NodeModel::Group(g@), above) == head + rest);
    lemma_first_place_append(head, rest, id);
    assert(head.drop_last() =~= Seq::<GroupPlace>::empty());
    assert(first_place(head.drop_last(), id) is None);
    assert(head.last() == GroupPlace { group: g@, above: above });
}

/// Replacing one node changes only that node's view.
pub proof fn lemma_forest_view_update(nodes: Seq<ProjectNode>, i: int, node: ProjectNode)
    requires
        0 <= i < nodes.len(),
    ensures
        forest_view(nodes.update(i, node)) == forest_view(nodes).update(i, node@),
{
    lemma_forest_view(nodes);
    lemma_forest_view(nodes.update(i, node));
    assert(forest_view(nodes.update(i, node)) =~= forest_view(nodes).update(i, node@));
}

pub proof fn lemma_forest_view_remove(nodes: Seq<ProjectNode>, i: int)
    requires
        0 <= i < nodes.len(),
    ensures
        forest_view(nodes.remove(i)) == forest_view(nodes).remove(i),
{
    lemma_forest_view(nodes);
    lemma_forest_view(nodes.remove(i));
    assert(forest_view(nodes.remove(i)) =~= forest_view(nodes).remove(i));
}

pub proof fn lemma_forest_view_concat(a: Seq<ProjectNode>, b: Seq<ProjectNode>)
    ensures
        forest_view(a + b) == forest_view(a) + forest_view(b),
{
    lemma_forest_view(a);
    lemma_forest_view(b);
    lemma_forest_view(a + b);
    assert forall|k: int| 0 <= k < (a + b).len() implies #[trigger] forest_view(a + b)[k] == (
    forest_view(a) + forest_view(b))[k] by {
        if k < a.len() {
            assert((a + b)[k] == a[k]);
        } else {
            assert((a + b)[k] == b[k - a.len()]);
        }
    }
    assert(forest_view(a + b) =~= forest_view(a) + forest_view(b));
}

pub proof fn lemma_forest_view_skip(nodes: Seq<ProjectNode>, k: int)
    requires
        0 <= k <= nodes.len(),
    ensures
        forest_view(nodes.skip(k)) == forest_view(nodes).skip(k),
{
    lemma_forest_view(nodes);
    lemma_forest_view(nodes.skip(k));
    assert(forest_view(nodes.skip(k)) =~= forest_view(nodes).skip(k));
}

fn count_projects(nodes: &Vec<ProjectNode>, Ghost(above): Ghost<Seq<GroupModel>>) -> (r: usize)
    requires
        project_places(forest_view(nodes@), above).len() <= usize::MAX,
    ensures
        r == project_places(forest_view(nodes@), above).len(),
    decreases nodes@,
{
    let ghost f = forest_view(nodes@);
    let mut total: usize = 0;
    let mut i: usize = 0;
    while i < nodes.len()
        invariant
            i <= nodes@.len(),
            f == forest_view(nodes@),
            project_places(f, above).len() <= usize::MAX,
            total == project_places(forest_view(nodes@.take(i as int)), above).len(),
        decreases nodes@.len() - i,
    {
        proof {
            lemma_places_step(nodes@, i as int, above);
            lemma_places_split(nodes@, i + 1, above);
        }
        match &nodes[i] {
            ProjectNode::Group(group) => {
                let inner = count_projects(&group.nodes, Ghost(above.push(group@)));
                total = total + inner;
            },
            ProjectNode::Project(_) => {
                total = total + 1;
            },
        }
        i = i + 1;
    }
    proof {
        lemma_forest_view_whole(nodes@);
    }
    total
}

fn count_groups(nodes: &Vec<ProjectNode>, Ghost(above): Ghost<Seq<GroupModel>>) -> (r: usize)
    requires
        group_places(forest_view(nodes@), above).len() <= usize::MAX,
    ensures
        r == group_places(forest_view(nodes@), above).len(),
    decreases nodes@,
{
    let ghost f = forest_view(nodes@);
    let mut total: usize = 0;
    let mut i: usize = 0;
    while i < nodes.len()
        invariant
            i <= nodes@.len(),
            f == forest_view(nodes@),
            group_places(f, above).len() <= usize::MAX,
            total == group_places(forest_view(nodes@.take(i as int)), above).len(),
        decreases nodes@.len() - i,
    {
        proof {
            lemma_places_step(nodes@, i as int, above);
            lemma_places_split(nodes@, i + 1, above);
        }
        match &nodes[i] {
            ProjectNode::Group(group) => {
                let inner = count_groups(&group.nodes, Ghost(above.push(group@)));
                total = total + 1 + inner;
            },
            ProjectNode::Project(_) => {},
        }
        i = i + 1;
    }
    proof {
        lemma_forest_view_whole(nodes@);
    }
    total
}

fn contains_project(nodes: &Vec<ProjectNode>, path: &[u8], Ghost(above): Ghost<Seq<GroupModel>>) -> (r: bool)
    ensures
        r == first_project(project_places(forest_view(nodes@), above), path@) is Some,
    decreases nodes@,
{
    let mut i: usize = 0;
    while i < nodes.len()
        invariant
            i <= nodes@.len(),
            first_project(project_places(forest_view(nodes@.take(i as int)), above), path@) is None,
        decreases nodes@.len() - i,
    {
        proof {
            lemma_places_step(nodes@, i as int, above);
        }
        let ghost prefix = project_places(forest_view(nodes@.take(i as int)), above);
        let ghost part = project_part(nodes@[i as int]@, above);
        let found = match &nodes[i] {
            ProjectNode::Group(group) => contains_project(&group.nodes, path, Ghost(above.push(group@))),
            ProjectNode::Project(project) => {
                let same = paths_equal(project.as_slice(), path);
                proof {
                    assert(part.drop_last() =~= Seq::<ProjectPlace>::empty());
                    assert(first_project(part.drop_last(), path@) is None);
                    assert((first_project(part, path@) is Some) == same);
                }
                same
            },
        };
        proof {
            lemma_first_project_append(prefix, part, path@);
        }
        if found {
            proof {
                lemma_places_split(nodes@, i + 1, above);
                lemma_first_project_append(
                    prefix + part,
                    project_places(forest_view(nodes@).skip(i + 1), above),
                    path@,
                );
            }
            return true;
        }
        i = i + 1;
    }
    proof {
        lemma_forest_view_whole(nodes@);
    }
    false
}

/// A destination offered by a "Move to…" menu.
#[derive(Clone, Debug, PartialEq, Eq)]
pub struct GroupEntry {
    pub id: u32,
    pub name: String,
    pub depth: usize,
}

impl View for GroupEntry {
    type V = GroupEntryModel;

    open spec fn view(&self) -> GroupEntryModel {
        GroupEntryModel { id: self.id, name: self.name@, depth: self.depth as nat }
    }
}

pub open spec fn entry_views(entries: Seq<GroupEntry>) -> Seq<GroupEntryModel> {
    entries.map_values(|e: GroupEntry| e@)
}

pub open spec fn place_entries(places: Seq<GroupPlace>) -> Seq<GroupEntryModel> {
    places.map_values(|p: GroupPlace| place_entry(p))
}

pub open spec fn place_paths(places: Seq<ProjectPlace>) -> Seq<Seq<u8>> {
    places.map_values(|p: ProjectPlace| p.path)
}

pub open spec fn string_views(strings: Seq<String>) -> Seq<Seq<char>> {
    strings.map_values(|s: String| s@)
}

/// A copy of a byte string.
pub fn copy_bytes(bytes: &[u8]) -> (r: Vec<u8>)
    ensures
        r@ == bytes@,
{
    let mut r: Vec<u8> = Vec::new();
    let mut i: usize = 0;
    while i < bytes.len()
        invariant
            i <= bytes@.len(),
            r@ == bytes@.take(i as int),
        decreases bytes@.len() - i,
    {
        r.push(bytes[i]);
        i = i + 1;
        proof {
            assert(r@ =~= bytes@.take(i as int));
        }
    }
    proof {
        assert(bytes@.take(bytes@.len() as int) =~= bytes@);
    }
    r
}

fn find_group<'a>(nodes: &'a Vec<ProjectNode>, id: u32, Ghost(above): Ghost<Seq<GroupModel>>) -> (r:
    Option<&'a ProjectGroup>)
    ensures
        match first_place(group_places(forest_view(nodes@), above), id) {
            Some(place) => r is Some && r->0@ == place.group,
            None => r is None,
        },
    decreases nodes@,
{
    let mut i: usize = 0;
    while i < nodes.len()
        invariant
            i <= nodes@.len(),
            first_place(group_places(forest_view(nodes@.take(i as int)), above), id) is None,
        decreases nodes@.len() - i,
    {
        proof {
            lemma_places_step(nodes@, i as int, above);
            lemma_found_in_prefix(nodes@, i + 1, above);
            lemma_first_place_append(
                group_places(forest_view(nodes@.take(i as int)), above),
                group_part(nodes@[i as int]@, above),
                id,
            );
        }
        if let ProjectNode::Group(group) = &nodes[i] {
            proof {
                lemma_first_place_in_group(*group, above, id);
            }
            if group.id == id {
                return Some(group);
            }
            let found = find_group(&group.nodes, id, Ghost(above.push(group@)));
            if found.is_some() {
                return found;
            }
        } else {
            proof {
                assert(group_part(nodes@[i as int]@, above) =~= Seq::<GroupPlace>::empty());
            }
        }
        i = i + 1;
    }
    proof {
        lemma_forest_view_whole(nodes@);
    }
    None
}

fn depth_of(
    nodes: &Vec<ProjectNode>,
    id: u32,
    depth: usize,
    Ghost(above): Ghost<Seq<GroupModel>>,
) -> (r: Option<usize>)
    requires
        depth == above.len() + 1,
        depth + group_places(forest_view(nodes@), above).len() <= usize::MAX,
    ensures
        match first_place(group_places(forest_view(nodes@), above), id) {
            Some(place) => r is Some && r->0 == place.above.len() + 1,
            None => r is None,
        },
    decreases nodes@,
{
    let mut i: usize = 0;
    while i < nodes.len()
        invariant
            i <= nodes@.len(),
            depth == above.len() + 1,
            depth + group_places(forest_view(nodes@), above).len() <= usize::MAX,
            first_place(group_places(forest_view(nodes@.take(i as int)), above), id) is None,
        decreases nodes@.len() - i,
    {
        proof {
            lemma_places_step(nodes@, i as int, above);
            lemma_found_in_prefix(nodes@, i + 1, above);
            lemma_places_split(nodes@, i + 1, above);
            lemma_first_place_append(
                group_places(forest_view(nodes@.take(i as int)), above),
                group_part(nodes@[i as int]@, above),
                id,
            );
        }
        if let ProjectNode::Group(group) = &nodes[i] {
            proof {
                lemma_first_place_in_group(*group, above, id);
            }
            if group.id == id {
                return Some(depth);
            }
            let found = depth_of(&group.nodes, id, depth + 1, Ghost(above.push(group@)));
            if found.is_some() {
                return found;
            }
        } else {
            proof {
                assert(group_part(nodes@[i as int]@, above) =~= Seq::<GroupPlace>::empty());
            }
        }
        i = i + 1;
    }
    proof {
        lemma_forest_view_whole(nodes@);
    }
    None
}

fn collect_groups(
    nodes: &Vec<ProjectNode>,
    depth: usize,
    entries: &mut Vec<GroupEntry>,
    Ghost(above): Ghost<Seq<GroupModel>>,
)
    requires
        depth == above.len(),
        depth + group_places(forest_view(nodes@), above).len() <= usize::MAX,
    ensures
        entry_views(final(entries)@) == entry_views(old(entries)@) + place_entries(
            group_places(forest_view(nodes@), above),
        ),
    decreases nodes@,
{
    let ghost start = entry_views(entries@);
    let mut i: usize = 0;
    while i < nodes.len()
        invariant
            i <= nodes@.len(),
            depth == above.len(),
            depth + group_places(forest_view(nodes@), above).len() <= usize::MAX,
            entry_views(entries@) == start + place_entries(
                group_places(forest_view(nodes@.take(i as int)), above),
            ),
        decreases nodes@.len() - i,
    {
        proof {
            lemma_places_step(nodes@, i as int, above);
            lemma_places_split(nodes@, i + 1, above);
        }
        let ghost prefix = group_places(forest_view(nodes@.take(i as int)), above);
        if let ProjectNode::Group(group) = &nodes[i] {
            let ghost before = entry_views(entries@);
            entries.push(GroupEntry { id: group.id, name: group.name.clone(), depth });
            let ghost head = seq![GroupPlace { group: group@, above: above }];
            proof {
                assert(entry_views(entries@) =~= before.push(place_entry(head[0])));
                assert(place_entries(prefix + head) =~= place_entries(prefix) + place_entries(
                    head,
                ));
                assert(start + place_entries(prefix + head) =~= entry_views(entries@));
            }
            collect_groups(&group.nodes, depth + 1, entries, Ghost(above.push(group@)));
            proof {
                let rest = group_places(forest_view(group.nodes@), above.push(group@));
                assert(prefix + head + rest =~= prefix + group_part(nodes@[i as int]@, above));
                assert(place_entries(prefix + head + rest) =~= place_entries(prefix + head)
                    + place_entries(rest));
            }
        } else {
            proof {
                assert(prefix + group_part(nodes@[i as int]@, above) =~= prefix);
            }
        }
        i = i + 1;
    }
    proof {
        lemma_forest_view_whole(nodes@);
    }
}

fn collect_projects(
    nodes: &Vec<ProjectNode>,
    paths: &mut Vec<Vec<u8>>,
    Ghost(above): Ghost<Seq<GroupModel>>,
)
    ensures
        views(final(paths)@) == views(old(paths)@) + place_paths(
            project_places(forest_view(nodes@), above),
        ),
    decreases nodes@,
{
    let ghost start = views(paths@);
    let mut i: usize = 0;
    while i < nodes.len()
        invariant
            i <= nodes@.len(),
            views(paths@) == start + place_paths(
                project_places(forest_view(nodes@.take(i as int)), above),
            ),
        decreases nodes@.len() - i,
    {
        proof {
            lemma_places_step(nodes@, i as int, above);
        }
        let ghost prefix = project_places(forest_view(nodes@.take(i as int)), above);
        let ghost part = project_part(nodes@[i as int]@, above);
        match &nodes[i] {
            ProjectNode::Group(group) => {
                collect_projects(&group.nodes, paths, Ghost(above.push(group@)));
            },
            ProjectNode::Project(path) => {
                let ghost before = views(paths@);
                paths.push(copy_bytes(path.as_slice()));
                proof {
                    assert(views(paths@) =~= before.push(path@));
                }
            },
        }
        proof {
            assert(place_paths(prefix + part) =~= place_paths(prefix) + place_paths(part));
            assert(views(paths@) =~= start + place_paths(prefix + part));
        }
        i = i + 1;
    }
    proof {
        lemma_forest_view_whole(nodes@);
    }
}

/// The node a parent search looks for.
pub enum NodeTarget {
    Group(u32),
    Project(Vec<u8>),
}

/// The parent of the first node matching `target` that a depth-first
/// search meets, wrapped so a missing node and a top-level node stay
/// distinguishable.
pub open spec fn target_parent(
    groups: Seq<GroupPlace>,
    projects: Seq<ProjectPlace>,
    target: NodeTarget,
) -> Option<Option<u32>> {
    match target {
        NodeTarget::Group(id) => match first_place(groups, id) {
            Some(place) => Some(parent_id(place.above)),
            None => None,
        },
        NodeTarget::Project(path) => match first_project(projects, path@) {
            Some(place) => Some(parent_id(place.above)),
            None => None,
        },
    }
}

fn is_target(node: &ProjectNode, target: &NodeTarget) -> (r: bool)
    ensures
        r == match (*target, *node) {
            (NodeTarget::Group(id), ProjectNode::Group(g)) => g.id == id,
            (NodeTarget::Project(path), ProjectNode::Project(p)) => same_path(p@, path@),
            _ => false,
        },
{
    match (target, node) {
        (NodeTarget::Group(id), ProjectNode::Group(group)) => group.id == *id,
        (NodeTarget::Project(path), ProjectNode::Project(project)) => paths_equal(
            project.as_slice(),
            path.as_slice(),
        ),
        _ => false,
    }
}

fn parent_of(
    nodes: &Vec<ProjectNode>,
    parent: Option<u32>,
    target: &NodeTarget,
    Ghost(above): Ghost<Seq<GroupModel>>,
) -> (r: Option<Option<u32>>)
    requires
        parent == parent_id(above),
    ensures
        r == target_parent(
            group_places(forest_view(nodes@), above),
            project_places(forest_view(nodes@), above),
            *target,
        ),
    decreases nodes@,
{
    let mut i: usize = 0;
    while i < nodes.len()
        invariant
            i <= nodes@.len(),
            parent == parent_id(above),
            target_parent(
                group_places(forest_view(nodes@.take(i as int)), above),
                project_places(forest_view(nodes@.take(i as int)), above),
                *target,
            ) is None,
        decreases nodes@.len() - i,
    {
        proof {
            lemma_places_step(nodes@, i as int, above);
            lemma_found_in_prefix(nodes@, i + 1, above);
            let gprefix = group_places(forest_view(nodes@.take(i as int)), above);
            let pprefix = project_places(forest_view(nodes@.take(i as int)), above);
            match target {
                NodeTarget::Group(id) => {
                    lemma_first_place_append(gprefix, group_part(nodes@[i as int]@, above), *id);
                },
                NodeTarget::Project(path) => {
                    lemma_first_project_append(
                        pprefix,
                        project_part(nodes@[i as int]@, above),
                        path@,
                    );
                },
            }
            match nodes@[i as int] {
                ProjectNode::Group(g) => {
                    match target {
                        NodeTarget::Group(id) => {
                            lemma_first_place_in_group(g, above, *id);
                        },
                        NodeTarget::Project(_) => {},
                    }
                },
                ProjectNode::Project(p) => {
                    assert(group_part(nodes@[i as int]@, above) =~= Seq::<GroupPlace>::empty());
                    assert(first_place(Seq::<GroupPlace>::empty(), 0) is None);
                    lemma_first_project_single(ProjectPlace { path: p@, above: above }, p@);
                    match target {
                        NodeTarget::Group(id) => {
                            assert(first_place(Seq::<GroupPlace>::empty(), *id) is None);
                        },
                        NodeTarget::Project(path) => {
                            lemma_first_project_single(
                                ProjectPlace { path: p@, above: above },
                                path@,
                            );
                        },
                    }
                },
            }
        }
        if is_target(&nodes[i], target) {
            return Some(parent);
        }
        if let ProjectNode::Group(group) = &nodes[i] {
            let found = parent_of(&group.nodes, Some(group.id), target, Ghost(above.push(group@)));
            if found.is_some() {
                return found;
            }
        }
        i = i + 1;
    }
    proof {
        lemma_forest_view_whole(nodes@);
    }
    None
}

fn group_path(
    nodes: &Vec<ProjectNode>,
    id: u32,
    path: &mut Vec<String>,
    Ghost(above): Ghost<Seq<GroupModel>>,
) -> (r: bool)
    requires
        string_views(old(path)@) == group_names(above),
    ensures
        r == first_place(group_places(forest_view(nodes@), above), id) is Some,
        r ==> string_views(final(path)@) == group_names(
            first_place(group_places(forest_view(nodes@), above), id)->0.above.push(
                first_place(group_places(forest_view(nodes@), above), id)->0.group,
            ),
        ),
        !r ==> final(path)@ == old(path)@,
    decreases nodes@,
{
    let ghost start = path@;
    let mut i: usize = 0;
    while i < nodes.len()
        invariant
            i <= nodes@.len(),
            path@ == start,
            string_views(start) == group_names(above),
            first_place(group_places(forest_view(nodes@.take(i as int)), above), id) is None,
        decreases nodes@.len() - i,
    {
        proof {
            lemma_places_step(nodes@, i as int, above);
            lemma_found_in_prefix(nodes@, i + 1, above);
            lemma_first_place_append(
                group_places(forest_view(nodes@.take(i as int)), above),
                group_part(nodes@[i as int]@, above),
                id,
            );
        }
        if let ProjectNode::Group(group) = &nodes[i] {
            proof {
                lemma_first_place_in_group(*group, above, id);
            }
            let name = group.name.clone();
            let ghost pushed = name;
            path.push(name);
            proof {
                assert(path@ == start.push(pushed));
                assert(pushed@ == group@.name);
                assert(string_views(path@) =~= string_views(start).push(group@.name));
                assert(group_names(above.push(group@)) =~= group_names(above).push(group@.name));
            }
            if group.id == id || group_path(&group.nodes, id, path, Ghost(above.push(group@))) {
                return true;
            }
            path.pop();
            proof {
                assert(path@ =~= start);
            }
        } else {
            proof {
                assert(group_part(nodes@[i as int]@, above) =~= Seq::<GroupPlace>::empty());
            }
        }
        i = i + 1;
    }
    proof {
        lemma_forest_view_whole(nodes@);
    }
    false
}

fn subtree_height(group: &ProjectGroup, Ghost(above): Ghost<Seq<GroupModel>>) -> (r: usize)
    requires
        group_part(NodeModel::Group(group@), above).len() <= usize::MAX,
    ensures
        r == node_height(NodeModel::Group(group@)),
    decreases group,
{
    let nodes = &group.nodes;
    let ghost inner = above.push(group@);
    let ghost total = group_places(forest_view(nodes@), inner).len();
    proof {
        assert(group_part(NodeModel::Group(group@), above).len() == 1 + total);
    }
    let mut highest: usize = 0;
    let mut i: usize = 0;
    while i < nodes.len()
        invariant
            i <= nodes@.len(),
            nodes == &group.nodes,
            total == group_places(forest_view(nodes@), inner).len(),
            1 + total <= usize::MAX,
            highest == forest_height(forest_view(nodes@.take(i as int))),
            highest <= total,
        decreases nodes@.len() - i,
    {
        proof {
            lemma_places_step(nodes@, i as int, inner);
            lemma_forest_view_step(nodes@, i as int);
            lemma_places_split(nodes@, i + 1, inner);
            lemma_height_bound(forest_view(nodes@.take(i + 1)), inner);
            lemma_prefix_places(forest_view(nodes@), i + 1, inner);
        }
        let ghost previous = highest;
        if let ProjectNode::Group(child) = &nodes[i] {
            let height = subtree_height(child, Ghost(inner));
            proof {
                assert(nodes@[i as int]@ == NodeModel::Group(child@));
                assert(height == node_height(nodes@[i as int]@));
            }
            if height > highest {
                highest = height;
            }
        } else {
            proof {
                assert(node_height(nodes@[i as int]@) == 0);
            }
        }
        proof {
            let grown = forest_view(nodes@.take(i + 1));
            assert(forest_height(grown) == if previous >= node_height(nodes@[i as int]@) {
                previous as nat
            } else {
                node_height(nodes@[i as int]@)
            });
        }
        i = i + 1;
    }
    proof {
        lemma_forest_view_whole(nodes@);
    }
    1 + highest
}

/// One visible line of the pane. Collapsed groups hide their descendants, so
/// a row list is shorter than the tree it comes from.
#[derive(Clone, Debug, PartialEq, Eq)]
pub enum LibraryRow {
    Group { id: u32, name: String, depth: usize, collapsed: bool, projects: usize },
    Project { path: Vec<u8>, depth: usize, parent: Option<u32> },
}

impl View for LibraryRow {
    type V = RowModel;

    open spec fn view(&self) -> RowModel {
        match self {
            LibraryRow::Group { id, name, depth, collapsed, projects } => RowModel::Group {
                id: *id,
                name: name@,
                depth: *depth as nat,
                collapsed: *collapsed,
                projects: *projects as nat,
            },
            LibraryRow::Project { path, depth, parent } => RowModel::Project {
                path: path@,
                depth: *depth as nat,
                parent: *parent,
            },
        }
    }
}

pub open spec fn row_views(rows: Seq<LibraryRow>) -> Seq<RowModel> {
    rows.map_values(|r: LibraryRow| r@)
}

/// The number of projects of a subtree fits wherever the whole tree's does.
proof fn lemma_child_bounds(nodes: Seq<ProjectNode>, i: int, above: Seq<GroupModel>)
    requires
        0 <= i < nodes.len(),
        nodes[i] is Group,
    ensures
        project_places(forest_view(nodes[i]->Group_0.nodes@), seq![]).len() <= project_places(
            forest_view(nodes),
            above,
        ).len(),
        project_places(forest_view(nodes[i]->Group_0.nodes@), above.push(nodes[i]->Group_0@)).len()
            <= project_places(forest_view(nodes), above).len(),
        1 + group_places(forest_view(nodes[i]->Group_0.nodes@), above.push(nodes[i]->Group_0@)).len()
            <= group_places(forest_view(nodes), above).len(),
{
    let g = nodes[i]->Group_0;
    lemma_places_step(nodes, i, above);
    lemma_places_split(nodes, i + 1, above);
    lemma_places_len(forest_view(g.nodes@), seq![], above.push(g@));
}

fn collect_rows(
    nodes: &Vec<ProjectNode>,
    depth: usize,
    parent: Option<u32>,
    rows: &mut Vec<LibraryRow>,
    Ghost(above): Ghost<Seq<GroupModel>>,
)
    requires
        depth == above.len(),
        depth + group_places(forest_view(nodes@), above).len() <= usize::MAX,
        project_places(forest_view(nodes@), above).len() <= usize::MAX,
    ensures
        row_views(final(rows)@) == row_views(old(rows)@) + saved_rows(
            forest_view(nodes@),
            depth as nat,
            parent,
        ),
    decreases nodes@,
{
    let ghost start = row_views(rows@);
    let mut i: usize = 0;
    while i < nodes.len()
        invariant
            i <= nodes@.len(),
            depth == above.len(),
            depth + group_places(forest_view(nodes@), above).len() <= usize::MAX,
            project_places(forest_view(nodes@), above).len() <= usize::MAX,
            row_views(rows@) == start + group_rows(forest_view(nodes@.take(i as int)), depth as nat),
        decreases nodes@.len() - i,
    {
        proof {
            lemma_forest_view_step(nodes@, i as int);
        }
        let ghost prefix = group_rows(forest_view(nodes@.take(i as int)), depth as nat);
        if let ProjectNode::Group(group) = &nodes[i] {
            proof {
                lemma_child_bounds(nodes@, i as int, above);
            }
            let projects = count_projects(&group.nodes, Ghost(Seq::<GroupModel>::empty()));
            let ghost before = row_views(rows@);
            rows.push(
                LibraryRow::Group {
                    id: group.id,
                    name: group.name.clone(),
                    depth,
                    collapsed: group.collapsed,
                    projects,
                },
            );
            let ghost head = row_views(rows@).last();
            proof {
                assert(row_views(rows@) =~= before.push(head));
            }
            if !group.collapsed {
                collect_rows(&group.nodes, depth + 1, Some(group.id), rows, Ghost(above.push(group@)));
                proof {
                    assert(row_views(rows@) =~= start + (prefix + (seq![head] + saved_rows(
                        forest_view(group.nodes@),
                        (depth + 1) as nat,
                        Some(group.id),
                    ))));
                }
            } else {
                proof {
                    assert(row_views(rows@) =~= start + (prefix + (seq![head]
                        + Seq::<RowModel>::empty())));
                }
            }
        } else {
            proof {
                assert(prefix + Seq::<RowModel>::empty() =~= prefix);
            }
        }
        i = i + 1;
    }
    proof {
        lemma_forest_view_whole(nodes@);
    }
    let ghost middle = row_views(rows@);
    let mut j: usize = 0;
    while j < nodes.len()
        invariant
            j <= nodes@.len(),
            row_views(rows@) == middle + project_rows(
                forest_view(nodes@.take(j as int)),
                depth as nat,
                parent,
            ),
        decreases nodes@.len() - j,
    {
        proof {
            lemma_forest_view_step(nodes@, j as int);
        }
        let ghost prefix = project_rows(forest_view(nodes@.take(j as int)), depth as nat, parent);
        if let ProjectNode::Project(path) = &nodes[j] {
            let ghost before = row_views(rows@);
            rows.push(LibraryRow::Project { path: copy_bytes(path.as_slice()), depth, parent });
            proof {
                assert(row_views(rows@) =~= before.push(
                    RowModel::Project { path: path@, depth: depth as nat, parent: parent },
                ));
                assert(row_views(rows@) =~= middle + (prefix + seq![
                    RowModel::Project { path: path@, depth: depth as nat, parent: parent },
                ]));
            }
        } else {
            proof {
                assert(prefix + Seq::<RowModel>::empty() =~= prefix);
            }
        }
        j = j + 1;
    }
    proof {
        lemma_forest_view_whole(nodes@);
        assert(row_views(rows@) =~= start + saved_rows(forest_view(nodes@), depth as nat, parent));
    }
}

/// `name` is what `name_of` may give for a path with the bytes `path`.
pub open spec fn names_path<F: Fn(&[u8]) -> String>(name_of: F, path: Seq<u8>, name: String) -> bool {
    exists|bytes: &[u8]| bytes@ == path && call_ensures(name_of, (bytes,), name)
}

/// The key a name sorts by: the bytes of its lowercase text.
fn sort_key(name: &str) -> (r: Vec<u8>)
    ensures
        r@ == name_key(name@),
{
    let lower = to_lowercase(name);
    copy_bytes(lower.as_str().as_bytes())
}

/// The groups of one level in presentation order: by lowercase name, saved
/// position breaking ties.
fn group_order(nodes: &Vec<ProjectNode>) -> (r: Vec<KeyedIndex>)
    ensures
        keyed_views(r@) == sort_entries(group_keys(forest_view(nodes@))),
{
    let mut keys: Vec<KeyedIndex> = Vec::new();
    let mut i: usize = 0;
    proof {
        assert(keyed_views(keys@) =~= Seq::<(Seq<u8>, int)>::empty());
    }
    while i < nodes.len()
        invariant
            i <= nodes@.len(),
            keyed_views(keys@) == group_keys(forest_view(nodes@.take(i as int))),
        decreases nodes@.len() - i,
    {
        proof {
            lemma_forest_view_step(nodes@, i as int);
            lemma_forest_view(nodes@.take(i + 1));
        }
        let ghost f = forest_view(nodes@.take(i + 1));
        if let ProjectNode::Group(group) = &nodes[i] {
            let key = sort_key(group.name.as_str());
            let ghost before = keyed_views(keys@);
            let entry = KeyedIndex { key, index: i };
            let ghost e = entry@;
            keys.push(entry);
            proof {
                assert(keyed_views(keys@) =~= before.push(e));
                assert(group_keys(f) =~= group_keys(f.drop_last()) + seq![
                    (name_key(group@.name), i as int),
                ]);
            }
        } else {
            proof {
                assert(group_keys(f) =~= group_keys(f.drop_last()));
            }
        }
        i = i + 1;
    }
    proof {
        lemma_forest_view_whole(nodes@);
    }
    sort_keyed(keys)
}

/// The projects of one level in presentation order, keyed by the display
/// names in `names` from position `base` on, and for each node the number of
/// projects saved before it on this level.
fn project_order(nodes: &Vec<ProjectNode>, names: &Vec<String>, base: usize) -> (r: (
    Vec<KeyedIndex>,
    Vec<usize>,
))
    requires
        base + library_model::count_projects(forest_view(nodes@)) <= names@.len(),
    ensures
        keyed_views(r.0@) == sort_entries(
            project_keys(forest_view(nodes@), string_views(names@), base as nat),
        ),
        r.1@.len() == nodes@.len(),
        forall|k: int|
            0 <= k < nodes@.len() ==> #[trigger] r.1@[k] == library_model::count_projects(
                forest_view(nodes@).take(k),
            ),
{
    let ghost empty = Seq::<GroupModel>::empty();
    let ghost names_v = string_views(names@);
    let available = names.len();
    let mut order: Vec<KeyedIndex> = Vec::new();
    let mut offsets: Vec<usize> = Vec::new();
    let mut seen: usize = 0;
    let mut i: usize = 0;
    while i < nodes.len()
        invariant
            i <= nodes@.len(),
            names_v == string_views(names@),
            available == names@.len(),
            empty == Seq::<GroupModel>::empty(),
            base + library_model::count_projects(forest_view(nodes@)) <= names@.len(),
            seen == library_model::count_projects(forest_view(nodes@.take(i as int))),
            offsets@.len() == i,
            forall|k: int|
                0 <= k < i ==> #[trigger] offsets@[k] == library_model::count_projects(
                    forest_view(nodes@.take(k)),
                ),
            keyed_views(order@) == project_keys(
                forest_view(nodes@.take(i as int)),
                names_v,
                base as nat,
            ),
        decreases nodes@.len() - i,
    {
        proof {
            lemma_forest_view_step(nodes@, i as int);
            lemma_forest_view(nodes@.take(i + 1));
            lemma_places_step(nodes@, i as int, empty);
            lemma_places_split(nodes@, i + 1, empty);
        }
        let ghost f = forest_view(nodes@.take(i + 1));
        offsets.push(seen);
        match &nodes[i] {
            ProjectNode::Group(group) => {
                proof {
                    lemma_places_len(forest_view(group.nodes@), empty, empty.push(group@));
                    assert(project_keys(f, names_v, base as nat) =~= project_keys(
                        f.drop_last(),
                        names_v,
                        base as nat,
                    ));
                }
                let inner = count_projects(&group.nodes, Ghost(empty));
                seen = seen + inner;
            },
            ProjectNode::Project(_) => {
                let key = sort_key(names[base + seen].as_str());
                let ghost before = keyed_views(order@);
                let entry = KeyedIndex { key, index: i };
                let ghost e = entry@;
                order.push(entry);
                proof {
                    assert(names_v[base + seen] == names@[base + seen]@);
                    assert(keyed_views(order@) =~= before.push(e));
                    assert(project_keys(f, names_v, base as nat) =~= project_keys(
                        f.drop_last(),
                        names_v,
                        base as nat,
                    ) + seq![(name_key(names_v[base + seen]), i as int)]);
                }
                seen = seen + 1;
            },
        }
        i = i + 1;
    }
    proof {
        lemma_forest_view_whole(nodes@);
        assert forall|k: int| 0 <= k < nodes@.len() implies #[trigger] offsets@[k]
            == library_model::count_projects(forest_view(nodes@).take(k)) by {
            lemma_forest_view_take(nodes@, k);
        }
    }
    (sort_keyed(order), offsets)
}

/// The projects of a child fit among the projects of its forest, after those
/// saved before it.
proof fn lemma_child_projects(nodes: Seq<ProjectNode>, i: int)
    requires
        0 <= i < nodes.len(),
        nodes[i] is Group,
    ensures
        library_model::count_projects(forest_view(nodes).take(i)) + library_model::count_projects(
            forest_view(nodes[i]->Group_0.nodes@),
        ) <= library_model::count_projects(forest_view(nodes)),
{
    let empty = Seq::<GroupModel>::empty();
    let g = nodes[i]->Group_0;
    lemma_places_step(nodes, i, empty);
    lemma_places_split(nodes, i + 1, empty);
    lemma_forest_view_take(nodes, i);
    lemma_places_len(forest_view(g.nodes@), empty, empty.push(g@));
}

fn collect_sorted_rows(
    nodes: &Vec<ProjectNode>,
    depth: usize,
    parent: Option<u32>,
    names: &Vec<String>,
    base: usize,
    rows: &mut Vec<LibraryRow>,
    Ghost(above): Ghost<Seq<GroupModel>>,
)
    requires
        depth == above.len(),
        depth + group_places(forest_view(nodes@), above).len() <= usize::MAX,
        base + library_model::count_projects(forest_view(nodes@)) <= names@.len(),
    ensures
        row_views(final(rows)@) == row_views(old(rows)@) + sorted_rows(
            forest_view(nodes@),
            depth as nat,
            parent,
            string_views(names@),
            base as nat,
        ),
    decreases nodes@,
{
    let ghost f = forest_view(nodes@);
    let ghost names_v = string_views(names@);
    let available = names.len();
    let groups = group_order(nodes);
    let (projects, offsets) = project_order(nodes, names, base);
    let ghost gorder = keyed_views(groups@);
    let ghost porder = keyed_views(projects@);
    let ghost start = row_views(rows@);
    proof {
        lemma_forest_view(nodes@);
    }
    let mut k: usize = 0;
    while k < groups.len()
        invariant
            k <= groups@.len(),
            f == forest_view(nodes@),
            f.len() == nodes@.len(),
            forall|j: int| 0 <= j < nodes@.len() ==> #[trigger] f[j] == nodes@[j]@,
            names_v == string_views(names@),
            available == names@.len(),
            gorder == keyed_views(groups@),
            gorder == sort_entries(group_keys(f)),
            offsets@.len() == nodes@.len(),
            forall|j: int|
                0 <= j < nodes@.len() ==> #[trigger] offsets@[j] == library_model::count_projects(
                    f.take(j),
                ),
            depth == above.len(),
            depth + group_places(f, above).len() <= usize::MAX,
            base + library_model::count_projects(f) <= names@.len(),
            row_views(rows@) == start + sorted_group_rows(
                f,
                gorder.take(k as int),
                depth as nat,
                names_v,
                base as nat,
            ),
        decreases groups@.len() - k,
    {
        let idx = groups[k].index;
        let ghost prefix = sorted_group_rows(f, gorder.take(k as int), depth as nat, names_v, base as nat);
        proof {
            assert(gorder.take(k + 1).drop_last() =~= gorder.take(k as int));
            assert(gorder.take(k + 1).last() == gorder[k as int]);
            assert(gorder[k as int].1 == idx);
        }
        if idx < nodes.len() {
            if let ProjectNode::Group(group) = &nodes[idx] {
                proof {
                    lemma_child_bounds(nodes@, idx as int, above);
                    lemma_child_projects(nodes@, idx as int);
                    assert(f[idx as int] == NodeModel::Group(group@));
                }
                let count = count_projects(&group.nodes, Ghost(Seq::<GroupModel>::empty()));
                let ghost before = row_views(rows@);
                rows.push(
                    LibraryRow::Group {
                        id: group.id,
                        name: group.name.clone(),
                        depth,
                        collapsed: group.collapsed,
                        projects: count,
                    },
                );
                let ghost head = row_views(rows@).last();
                proof {
                    assert(row_views(rows@) =~= before.push(head));
                }
                if !group.collapsed {
                    collect_sorted_rows(
                        &group.nodes,
                        depth + 1,
                        Some(group.id),
                        names,
                        base + offsets[idx],
                        rows,
                        Ghost(above.push(group@)),
                    );
                    proof {
                        assert(row_views(rows@) =~= start + (prefix + (seq![head] + sorted_rows(
                            forest_view(group.nodes@),
                            (depth + 1) as nat,
                            Some(group.id),
                            names_v,
                            (base + offsets@[idx as int]) as nat,
                        ))));
                    }
                } else {
                    proof {
                        assert(row_views(rows@) =~= start + (prefix + (seq![head]
                            + Seq::<RowModel>::empty())));
                    }
                }
            } else {
                proof {
                    assert(prefix + Seq::<RowModel>::empty() =~= prefix);
                }
            }
        } else {
            proof {
                assert(prefix + Seq::<RowModel>::empty() =~= prefix);
            }
        }
        k = k + 1;
    }
    proof {
        assert(gorder.take(groups@.len() as int) =~= gorder);
    }
    let ghost middle = row_views(rows@);
    let mut m: usize = 0;
    while m < projects.len()
        invariant
            m <= projects@.len(),
            f == forest_view(nodes@),
            f.len() == nodes@.len(),
            forall|j: int| 0 <= j < nodes@.len() ==> #[trigger] f[j] == nodes@[j]@,
            porder == keyed_views(projects@),
            row_views(rows@) == middle + sorted_project_rows(
                f,
                porder.take(m as int),
                depth as nat,
                parent,
            ),
        decreases projects@.len() - m,
    {
        let idx = projects[m].index;
        let ghost prefix = sorted_project_rows(f, porder.take(m as int), depth as nat, parent);
        proof {
            assert(porder.take(m + 1).drop_last() =~= porder.take(m as int));
            assert(porder.take(m + 1).last() == porder[m as int]);
            assert(porder[m as int].1 == idx);
        }
        if idx < nodes.len() {
            if let ProjectNode::Project(path) = &nodes[idx] {
                let ghost before = row_views(rows@);
                rows.push(LibraryRow::Project { path: copy_bytes(path.as_slice()), depth, parent });
                proof {
                    assert(f[idx as int] == NodeModel::Project(path@));
                    assert(row_views(rows@) =~= before.push(
                        RowModel::Project { path: path@, depth: depth as nat, parent: parent },
                    ));
                    assert(row_views(rows@) =~= middle + (prefix + seq![
                        RowModel::Project { path: path@, depth: depth as nat, parent: parent },
                    ]));
                }
            } else {
                proof {
                    assert(prefix + Seq::<RowModel>::empty() =~= prefix);
                }
            }
        } else {
            proof {
                assert(prefix + Seq::<RowModel>::empty() =~= prefix);
            }
        }
        m = m + 1;
    }
    proof {
        assert(porder.take(projects@.len() as int) =~= porder);
    }
}

fn collect_sorted_groups(
    nodes: &Vec<ProjectNode>,
    depth: usize,
    entries: &mut Vec<GroupEntry>,
    Ghost(above): Ghost<Seq<GroupModel>>,
)
    requires
        depth == above.len(),
        depth + group_places(forest_view(nodes@), above).len() <= usize::MAX,
    ensures
        entry_views(final(entries)@) == entry_views(old(entries)@) + sorted_group_entries(
            forest_view(nodes@),
            depth as nat,
        ),
    decreases nodes@,
{
    let ghost f = forest_view(nodes@);
    let groups = group_order(nodes);
    let ghost gorder = keyed_views(groups@);
    let ghost start = entry_views(entries@);
    proof {
        lemma_forest_view(nodes@);
    }
    let mut k: usize = 0;
    while k < groups.len()
        invariant
            k <= groups@.len(),
            f == forest_view(nodes@),
            f.len() == nodes@.len(),
            forall|j: int| 0 <= j < nodes@.len() ==> #[trigger] f[j] == nodes@[j]@,
            gorder == keyed_views(groups@),
            gorder == sort_entries(group_keys(f)),
            depth == above.len(),
            depth + group_places(f, above).len() <= usize::MAX,
            entry_views(entries@) == start + sorted_group_entries_in(
                f,
                gorder.take(k as int),
                depth as nat,
            ),
        decreases groups@.len() - k,
    {
        let idx = groups[k].index;
        let ghost prefix = sorted_group_entries_in(f, gorder.take(k as int), depth as nat);
        proof {
            assert(gorder.take(k + 1).drop_last() =~= gorder.take(k as int));
            assert(gorder.take(k + 1).last() == gorder[k as int]);
            assert(gorder[k as int].1 == idx);
        }
        if idx < nodes.len() {
            if let ProjectNode::Group(group) = &nodes[idx] {
                proof {
                    lemma_child_bounds(nodes@, idx as int, above);
                    assert(f[idx as int] == NodeModel::Group(group@));
                }
                let ghost before = entry_views(entries@);
                entries.push(GroupEntry { id: group.id, name: group.name.clone(), depth });
                let ghost head = entry_views(entries@).last();
                proof {
                    assert(entry_views(entries@) =~= before.push(head));
                }
                collect_sorted_groups(&group.nodes, depth + 1, entries, Ghost(above.push(group@)));
                proof {
                    assert(entry_views(entries@) =~= start + (prefix + (seq![head]
                        + sorted_group_entries(forest_view(group.nodes@), (depth + 1) as nat))));
                }
            } else {
                proof {
                    assert(prefix + Seq::<GroupEntryModel>::empty() =~= prefix);
                }
            }
        } else {
            proof {
                assert(prefix + Seq::<GroupEntryModel>::empty() =~= prefix);
            }
        }
        k = k + 1;
    }
    proof {
        assert(gorder.take(groups@.len() as int) =~= gorder);
    }
}

/// A deep copy of a forest.
fn copy_forest(nodes: &Vec<ProjectNode>) -> (r: Vec<ProjectNode>)
    ensures
        forest_view(r@) == forest_view(nodes@),
    decreases nodes@,
{
    let mut r: Vec<ProjectNode> = Vec::new();
    let mut i: usize = 0;
    while i < nodes.len()
        invariant
            i <= nodes@.len(),
            forest_view(r@) == forest_view(nodes@.take(i as int)),
        decreases nodes@.len() - i,
    {
        proof {
            lemma_forest_view_step(nodes@, i as int);
        }
        let copy = match &nodes[i] {
            ProjectNode::Group(group) => ProjectNode::Group(
                ProjectGroup {
                    id: group.id,
                    name: group.name.clone(),
                    collapsed: group.collapsed,
                    nodes: copy_forest(&group.nodes),
                },
            ),
            ProjectNode::Project(path) => ProjectNode::Project(copy_bytes(path.as_slice())),
        };
        let ghost before = r@;
        r.push(copy);
        proof {
            assert(r@.drop_last() =~= before);
            assert(forest_view(r@) == forest_view(before).push(copy@));
        }
        i = i + 1;
    }
    proof {
        lemma_forest_view_whole(nodes@);
    }
    r
}

impl Clone for ProjectGroup {
    fn clone(&self) -> (r: Self)
        ensures
            r@ == self@,
    {
        ProjectGroup {
            id: self.id,
            name: self.name.clone(),
            collapsed: self.collapsed,
            nodes: copy_forest(&self.nodes),
        }
    }
}

impl Clone for ProjectNode {
    fn clone(&self) -> (r: Self)
        ensures
            r@ == self@,
    {
        match self {
            ProjectNode::Group(group) => ProjectNode::Group(group.clone()),
            ProjectNode::Project(path) => ProjectNode::Project(copy_bytes(path.as_slice())),
        }
    }
}

impl Clone for ProjectLibrary {
    fn clone(&self) -> (r: Self)
        ensures
            r@ == self@,
    {
        ProjectLibrary { nodes: copy_forest(&self.nodes) }
    }
}

impl Default for ProjectLibrary {
    fn default() -> (r: Self)
        ensures
            r@ == Seq::<NodeModel>::empty(),
    {
        ProjectLibrary { nodes: Vec::new() }
    }
}

impl ProjectLibrary {
    /// The counts fit the machine's word, so they can be reported.
    pub open spec fn countable(&self) -> bool {
        &&& library_model::count_groups(self@) < usize::MAX
        &&& library_model::count_projects(self@) < usize::MAX
    }

    pub fn group_count(&self) -> (r: usize)
        requires
            library_model::count_groups(self@) <= usize::MAX,
        ensures
            r == library_model::count_groups(self@),
    {
        count_groups(&self.nodes, Ghost(Seq::<GroupModel>::empty()))
    }

    pub fn project_count(&self) -> (r: usize)
        requires
            library_model::count_projects(self@) <= usize::MAX,
        ensures
            r == library_model::count_projects(self@),
    {
        count_projects(&self.nodes, Ghost(Seq::<GroupModel>::empty()))
    }

    pub fn contains_project(&self, path: &[u8]) -> (r: bool)
        ensures
            r == library_model::contains_project(self@, path@),
    {
        contains_project(&self.nodes, path, Ghost(Seq::<GroupModel>::empty()))
    }

    pub fn group(&self, id: u32) -> (r: Option<&ProjectGroup>)
        ensures
            match library_model::find_group(self@, id) {
                Some(place) => r is Some && r->0@ == place.group,
                None => r is None,
            },
    {
        find_group(&self.nodes, id, Ghost(Seq::<GroupModel>::empty()))
    }

    /// Every group, in list order, with its indentation depth. A move menu and
    /// the accessibility labels both read this.
    pub fn groups(&self) -> (r: Vec<GroupEntry>)
        requires
            library_model::count_groups(self@) <= usize::MAX,
        ensures
            entry_views(r@) == group_entries(self@),
    {
        let mut entries: Vec<GroupEntry> = Vec::new();
        collect_groups(&self.nodes, 0, &mut entries, Ghost(Seq::<GroupModel>::empty()));
        proof {
            assert(entry_views(entries@) =~= group_entries(self@));
        }
        entries
    }

    /// Every saved project path, in saved order.
    pub fn projects(&self) -> (r: Vec<Vec<u8>>)
        ensures
            views(r@) == project_paths(self@),
    {
        let mut paths: Vec<Vec<u8>> = Vec::new();
        collect_projects(&self.nodes, &mut paths, Ghost(Seq::<GroupModel>::empty()));
        proof {
            assert(views(paths@) =~= project_paths(self@));
        }
        paths
    }

    /// `None` when the group is missing; `Some(None)` at the top level.
    pub fn parent_of_group(&self, id: u32) -> (r: Option<Option<u32>>)
        ensures
            r == library_model::parent_of_group(self@, id),
    {
        parent_of(&self.nodes, None, &NodeTarget::Group(id), Ghost(Seq::<GroupModel>::empty()))
    }

    /// The group holding a project, or `None` at the top level or when the
    /// project is not in the list.
    pub fn parent_of_project(&self, path: &[u8]) -> (r: Option<u32>)
        ensures
            r == library_model::parent_of_project(self@, path@),
    {
        let target = NodeTarget::Project(copy_bytes(path));
        match parent_of(&self.nodes, None, &target, Ghost(Seq::<GroupModel>::empty())) {
            Some(parent) => parent,
            None => None,
        }
    }

    /// Whether `candidate` sits anywhere inside `ancestor`.
    pub fn group_contains(&self, ancestor: u32, candidate: u32) -> (r: bool)
        ensures
            r == library_model::group_contains(self@, ancestor, candidate),
    {
        match self.group(ancestor) {
            Some(group) => find_group(&group.nodes, candidate, Ghost(Seq::<GroupModel>::empty())).is_some(),
            None => false,
        }
    }

    /// Levels a group occupies, counting itself; `None` when it is missing.
    pub fn group_height(&self, id: u32) -> (r: Option<usize>)
        requires
            library_model::count_groups(self@) <= usize::MAX,
        ensures
            match library_model::group_height(self@, id) {
                Some(h) => r is Some && r->0 == h,
                None => r is None,
            },
    {
        let ghost place = library_model::find_group(self@, id);
        match self.group(id) {
            Some(group) => {
                proof {
                    lemma_found_subtree_bound(self@, id);
                }
                Some(subtree_height(group, Ghost(place->0.above)))
            },
            None => None,
        }
    }

    /// Group names from the top level down to this group. Empty when missing.
    pub fn group_path(&self, id: u32) -> (r: Vec<String>)
        ensures
            string_views(r@) == library_model::group_path(self@, id),
    {
        let mut path: Vec<String> = Vec::new();
        proof {
            assert(string_views(path@) =~= group_names(Seq::<GroupModel>::empty()));
        }
        let found = group_path(&self.nodes, id, &mut path, Ghost(Seq::<GroupModel>::empty()));
        proof {
            if !found {
                assert(string_views(path@) =~= Seq::<Seq<char>>::empty());
            }
        }
        path
    }

    /// Rows in saved order, without presentation sorting. Fixtures inspect
    /// this to check what the file holds; the pane shows `sorted_rows`.
    pub fn rows(&self) -> (r: Vec<LibraryRow>)
        requires
            self.countable(),
        ensures
            row_views(r@) == saved_rows(self@, 0, None),
    {
        let mut rows: Vec<LibraryRow> = Vec::new();
        collect_rows(&self.nodes, 0, None, &mut rows, Ghost(Seq::<GroupModel>::empty()));
        proof {
            assert(row_views(rows@) =~= saved_rows(self@, 0, None));
        }
        rows
    }

    /// The rows with each level sorted for display: groups by name, then
    /// projects by their display name, both case-insensitively, saved order
    /// breaking ties so the list is stable while it grows. `names` holds the
    /// display name of each project in saved order, as `projects` lists them.
    pub fn sorted_rows_named(&self, names: &Vec<String>) -> (r: Vec<LibraryRow>)
        requires
            self.countable(),
            library_model::count_projects(self@) <= names@.len(),
        ensures
            row_views(r@) == sorted_rows(self@, 0, None, string_views(names@), 0),
    {
        let mut rows: Vec<LibraryRow> = Vec::new();
        collect_sorted_rows(
            &self.nodes,
            0,
            None,
            names,
            0,
            &mut rows,
            Ghost(Seq::<GroupModel>::empty()),
        );
        proof {
            assert(row_views(rows@) =~= sorted_rows(self@, 0, None, string_views(names@), 0));
        }
        rows
    }

    /// The rows sorted for display, each project under the name `name_of`
    /// gives its path.
    pub fn sorted_rows<F: Fn(&[u8]) -> String>(&self, name_of: &F) -> (r: Vec<LibraryRow>)
        requires
            self.countable(),
            forall|path: &[u8]| call_requires(*name_of, (path,)),
        ensures
            exists|names: Seq<String>|
                {
                    &&& names.len() == library_model::count_projects(self@)
                    &&& forall|i: int|
                        0 <= i < names.len() ==> #[trigger] names_path(
                            *name_of,
                            project_paths(self@)[i],
                            names[i],
                        )
                    &&& row_views(r@) == sorted_rows(self@, 0, None, string_views(names), 0)
                },
    {
        let paths = self.projects();
        let mut names: Vec<String> = Vec::new();
        let mut i: usize = 0;
        while i < paths.len()
            invariant
                i <= paths@.len(),
                names@.len() == i,
                forall|path: &[u8]| call_requires(*name_of, (path,)),
                forall|j: int|
                    0 <= j < i ==> #[trigger] names_path(*name_of, paths@[j]@, names@[j]),
            decreases paths@.len() - i,
        {
            let path = paths[i].as_slice();
            let name = name_of(path);
            names.push(name);
            proof {
                assert(names_path(*name_of, paths@[i as int]@, names@[i as int]));
            }
            i = i + 1;
        }
        proof {
            assert(views(paths@).len() == paths@.len());
            assert forall|j: int| 0 <= j < names@.len() implies #[trigger] names_path(
                *name_of,
                project_paths(self@)[j],
                names@[j],
            ) by {
                assert(views(paths@)[j] == paths@[j]@);
            }
        }
        self.sorted_rows_named(&names)
    }

    /// Every group in the sorted presentation order, with its depth.
    pub fn sorted_groups(&self) -> (r: Vec<GroupEntry>)
        requires
            library_model::count_groups(self@) <= usize::MAX,
        ensures
            entry_views(r@) == sorted_group_entries(self@, 0),
    {
        let mut entries: Vec<GroupEntry> = Vec::new();
        collect_sorted_groups(&self.nodes, 0, &mut entries, Ghost(Seq::<GroupModel>::empty()));
        proof {
            assert(entry_views(entries@) =~= sorted_group_entries(self@, 0));
        }
        entries
    }

    /// One-based: a top-level group has depth one.
    fn depth_of(&self, id: u32) -> (r: Option<usize>)
        requires
            self.countable(),
        ensures
            match library_model::depth_of(self@, id) {
                Some(d) => r is Some && r->0 == d,
                None => r is None,
            },
    {
        depth_of(&self.nodes, id, 1, Ghost(Seq::<GroupModel>::empty()))
    }

    fn next_group_id(&self) -> (r: u32)
        requires
            self.countable(),
        ensures
            r == library_model::next_group_id(self@),
    {
        let entries = self.groups();
        proof {
            assert(entry_views(entries@).len() == entries@.len());
            assert(group_entries(self@).len() == group_places(self@, seq![]).len());
        }
        let mut highest: u32 = 0;
        let mut i: usize = 0;
        while i < entries.len()
            invariant
                i <= entries@.len(),
                entry_views(entries@) == group_entries(self@),
                entries@.len() == group_places(self@, seq![]).len(),
                highest == max_group_id(group_places(self@, seq![]).take(i as int)),
            decreases entries@.len() - i,
        {
            proof {
                let places = group_places(self@, seq![]);
                assert(places.take(i + 1).drop_last() =~= places.take(i as int));
                assert(entry_views(entries@)[i as int] == place_entry(places[i as int]));
                assert(entries@[i as int].id == places[i as int].group.id);
            }
            if entries[i].id > highest {
                highest = entries[i].id;
            }
            i = i + 1;
        }
        proof {
            let places = group_places(self@, seq![]);
            assert(places.take(places.len() as int) =~= places);
        }
        highest.saturating_add(1)
    }
}

/// A change a group receives in place.
pub enum Edit {
    Rename(String),
    Collapse(bool),
    Append(ProjectNode),
}

impl View for Edit {
    type V = GroupEdit;

    open spec fn view(&self) -> GroupEdit {
        match self {
            Edit::Rename(name) => GroupEdit::Rename(name@),
            Edit::Collapse(collapsed) => GroupEdit::Collapse(*collapsed),
            Edit::Append(node) => GroupEdit::Append(node@),
        }
    }
}

fn apply(group: &mut ProjectGroup, edit: Edit)
    ensures
        final(group)@ == apply_edit(old(group)@, edit@),
{
    match edit {
        Edit::Rename(name) => {
            group.name = name;
        },
        Edit::Collapse(collapsed) => {
            group.collapsed = collapsed;
        },
        Edit::Append(node) => {
            let ghost before = group.nodes@;
            group.nodes.push(node);
            proof {
                assert(group.nodes@.drop_last() =~= before);
            }
        },
    }
}

/// Apply `edit` to the group with identifier `id` that a depth-first search
/// meets first. The edit comes back unused when there is no such group.
fn edit_group(nodes: &mut Vec<ProjectNode>, id: u32, edit: Edit) -> (r: Option<Edit>)
    ensures
        library_model::find_group(forest_view(old(nodes)@), id) is Some ==> r is None
            && forest_view(final(nodes)@) == edit_forest(forest_view(old(nodes)@), id, edit@),
        library_model::find_group(forest_view(old(nodes)@), id) is None ==> r == Some(edit)
            && forest_view(final(nodes)@) == forest_view(old(nodes)@),
    decreases library_model::count_groups(forest_view(old(nodes)@)),
{
    let ghost f = forest_view(nodes@);
    let ghost pred = group_holder(id);
    proof {
        lemma_forest_view(nodes@);
    }
    let mut pending = edit;
    let mut i: usize = 0;
    while i < nodes.len()
        invariant
            i <= nodes@.len(),
            f == forest_view(old(nodes)@),
            forest_view(nodes@) == f,
            nodes@.len() == f.len(),
            pending == edit,
            pred == group_holder(id),
            forall|j: int| 0 <= j < i ==> !holds_group(#[trigger] f[j], id),
        decreases nodes@.len() - i,
    {
        proof {
            lemma_forest_view(nodes@);
        }
        let is_group = match &nodes[i] {
            ProjectNode::Group(_) => true,
            ProjectNode::Project(_) => false,
        };
        if is_group {
            let ghost current = nodes@;
            let node = nodes.remove(i);
            match node {
                ProjectNode::Group(mut group) => {
                    let ghost g0 = group@;
                    proof {
                        assert(f[i as int] == NodeModel::Group(g0));
                    }
                    if group.id == id {
                        apply(&mut group, pending);
                        nodes.insert(i, ProjectNode::Group(group));
                        proof {
                            assert(nodes@ =~= current.update(i as int, ProjectNode::Group(group)));
                            lemma_forest_view_update(current, i as int, ProjectNode::Group(group));
                            assert(holds_group(f[i as int], id));
                            lemma_first_index(f, pred, i as int);
                            lemma_holds_iff(f, id, seq![]);
                        }
                        return None;
                    }
                    proof {
                        lemma_child_bounds(current, i as int, seq![]);
                        lemma_places_len(forest_view(group.nodes@), seq![], seq![].push(g0));
                    }
                    let leftover = edit_group(&mut group.nodes, id, pending);
                    nodes.insert(i, ProjectNode::Group(group));
                    proof {
                        assert(nodes@ =~= current.update(i as int, ProjectNode::Group(group)));
                        lemma_forest_view_update(current, i as int, ProjectNode::Group(group));
                    }
                    match leftover {
                        None => {
                            proof {
                                assert(holds_group(f[i as int], id));
                                lemma_first_index(f, pred, i as int);
                                lemma_holds_iff(f, id, seq![]);
                            }
                            return None;
                        },
                        Some(unused) => {
                            proof {
                                assert(group@ == g0);
                                assert(f.update(i as int, NodeModel::Group(g0)) =~= f);
                                assert(!holds_group(f[i as int], id));
                            }
                            pending = unused;
                        },
                    }
                },
                ProjectNode::Project(path) => {
                    nodes.insert(i, ProjectNode::Project(path));
                    proof {
                        assert(nodes@ =~= current);
                    }
                },
            }
        }
        i = i + 1;
    }
    proof {
        lemma_holds_iff(f, id, seq![]);
    }
    Some(pending)
}

/// Take a project out of the list, as the model's `detach_project` says.
fn detach_project(nodes: &mut Vec<ProjectNode>, path: &[u8]) -> (r: Option<ProjectNode>)
    ensures
        match library_model::detach_project(forest_view(old(nodes)@), path@) {
            Some((rest, found)) => r is Some && r->0@ == NodeModel::Project(found) && forest_view(
                final(nodes)@,
            ) == rest,
            None => r is None && forest_view(final(nodes)@) == forest_view(old(nodes)@),
        },
    decreases library_model::count_groups(forest_view(old(nodes)@)),
{
    let ghost f = forest_view(nodes@);
    let ghost direct = project_at(path@);
    let ghost below = project_holder_below(path@);
    let mut i: usize = 0;
    while i < nodes.len()
        invariant
            i <= nodes@.len(),
            nodes@ == old(nodes)@,
            f == forest_view(old(nodes)@),
            direct == project_at(path@),
            forall|j: int| 0 <= j < i ==> !is_project_at(#[trigger] f[j], path@),
        decreases nodes@.len() - i,
    {
        proof {
            lemma_forest_view(nodes@);
        }
        let hit = match &nodes[i] {
            ProjectNode::Project(project) => paths_equal(project.as_slice(), path),
            ProjectNode::Group(_) => false,
        };
        if hit {
            let ghost current = nodes@;
            let node = nodes.remove(i);
            proof {
                assert(is_project_at(f[i as int], path@));
                lemma_first_index(f, direct, i as int);
                lemma_forest_view_remove(current, i as int);
            }
            return Some(node);
        }
        i = i + 1;
    }
    proof {
        lemma_forest_view(nodes@);
        assert forall|k: int| 0 <= k < f.len() implies !direct(#[trigger] f[k]) by {}
        lemma_no_first(f, direct);
    }
    let mut i: usize = 0;
    while i < nodes.len()
        invariant
            i <= nodes@.len(),
            f == forest_view(old(nodes)@),
            forest_view(nodes@) == f,
            nodes@.len() == f.len(),
            direct == project_at(path@),
            below == project_holder_below(path@),
            !has_first(f, direct),
            forall|j: int| 0 <= j < i ==> !holds_project_below(#[trigger] f[j], path@),
        decreases nodes@.len() - i,
    {
        proof {
            lemma_forest_view(nodes@);
        }
        let is_group = match &nodes[i] {
            ProjectNode::Group(_) => true,
            ProjectNode::Project(_) => false,
        };
        if is_group {
            let ghost current = nodes@;
            let node = nodes.remove(i);
            match node {
                ProjectNode::Group(mut group) => {
                    let ghost g0 = group@;
                    proof {
                        assert(f[i as int] == NodeModel::Group(g0));
                        lemma_child_bounds(current, i as int, seq![]);
                        lemma_places_len(forest_view(group.nodes@), seq![], seq![].push(g0));
                        lemma_detach_succeeds(g0.children, path@, 0);
                    }
                    let found = detach_project(&mut group.nodes, path);
                    nodes.insert(i, ProjectNode::Group(group));
                    proof {
                        assert(nodes@ =~= current.update(i as int, ProjectNode::Group(group)));
                        lemma_forest_view_update(current, i as int, ProjectNode::Group(group));
                    }
                    if found.is_some() {
                        proof {
                            assert(holds_project_below(f[i as int], path@));
                            lemma_first_index(f, below, i as int);
                        }
                        return found;
                    }
                    proof {
                        assert(group@ == g0);
                        assert(f.update(i as int, NodeModel::Group(g0)) =~= f);
                    }
                },
                ProjectNode::Project(project) => {
                    nodes.insert(i, ProjectNode::Project(project));
                    proof {
                        assert(nodes@ =~= current);
                    }
                },
            }
        }
        i = i + 1;
    }
    proof {
        assert forall|k: int| 0 <= k < f.len() implies !below(#[trigger] f[k]) by {}
        lemma_no_first(f, below);
    }
    None
}

/// Take a group, with everything inside it, out of the list, as the
/// model's `detach_group` says.
fn detach_group(nodes: &mut Vec<ProjectNode>, id: u32) -> (r: Option<ProjectNode>)
    ensures
        match library_model::detach_group(forest_view(old(nodes)@), id) {
            Some((rest, found)) => r is Some && r->0@ == NodeModel::Group(found) && forest_view(
                final(nodes)@,
            ) == rest,
            None => r is None && forest_view(final(nodes)@) == forest_view(old(nodes)@),
        },
    decreases library_model::count_groups(forest_view(old(nodes)@)),
{
    let ghost f = forest_view(nodes@);
    let ghost direct = group_with(id);
    let ghost below = group_holder_below(id);
    let mut i: usize = 0;
    while i < nodes.len()
        invariant
            i <= nodes@.len(),
            nodes@ == old(nodes)@,
            f == forest_view(old(nodes)@),
            direct == group_with(id),
            forall|j: int| 0 <= j < i ==> !is_group_with(#[trigger] f[j], id),
        decreases nodes@.len() - i,
    {
        proof {
            lemma_forest_view(nodes@);
        }
        let hit = match &nodes[i] {
            ProjectNode::Group(group) => group.id == id,
            ProjectNode::Project(_) => false,
        };
        if hit {
            let ghost current = nodes@;
            let node = nodes.remove(i);
            proof {
                assert(is_group_with(f[i as int], id));
                lemma_first_index(f, direct, i as int);
                lemma_forest_view_remove(current, i as int);
            }
            return Some(node);
        }
        i = i + 1;
    }
    proof {
        lemma_forest_view(nodes@);
        assert forall|k: int| 0 <= k < f.len() implies !direct(#[trigger] f[k]) by {}
        lemma_no_first(f, direct);
    }
    let mut i: usize = 0;
    while i < nodes.len()
        invariant
            i <= nodes@.len(),
            f == forest_view(old(nodes)@),
            forest_view(nodes@) == f,
            nodes@.len() == f.len(),
            direct == group_with(id),
            below == group_holder_below(id),
            !has_first(f, direct),
            forall|j: int| 0 <= j < i ==> !holds_group_below(#[trigger] f[j], id),
        decreases nodes@.len() - i,
    {
        proof {
            lemma_forest_view(nodes@);
        }
        let is_group = match &nodes[i] {
            ProjectNode::Group(_) => true,
            ProjectNode::Project(_) => false,
        };
        if is_group {
            let ghost current = nodes@;
            let node = nodes.remove(i);
            match node {
                ProjectNode::Group(mut group) => {
                    let ghost g0 = group@;
                    proof {
                        assert(f[i as int] == NodeModel::Group(g0));
                        lemma_child_bounds(current, i as int, seq![]);
                        lemma_places_len(forest_view(group.nodes@), seq![], seq![].push(g0));
                        lemma_detach_succeeds(g0.children, seq![], id);
                    }
                    let found = detach_group(&mut group.nodes, id);
                    nodes.insert(i, ProjectNode::Group(group));
                    proof {
                        assert(nodes@ =~= current.update(i as int, ProjectNode::Group(group)));
                        lemma_forest_view_update(current, i as int, ProjectNode::Group(group));
                    }
                    if found.is_some() {
                        proof {
                            assert(holds_group_below(f[i as int], id));
                            lemma_first_index(f, below, i as int);
                        }
                        return found;
                    }
                    proof {
                        assert(group@ == g0);
                        assert(f.update(i as int, NodeModel::Group(g0)) =~= f);
                    }
                },
                ProjectNode::Project(project) => {
                    nodes.insert(i, ProjectNode::Project(project));
                    proof {
                        assert(nodes@ =~= current);
                    }
                },
            }
        }
        i = i + 1;
    }
    proof {
        assert forall|k: int| 0 <= k < f.len() implies !below(#[trigger] f[k]) by {}
        lemma_no_first(f, below);
    }
    None
}

/// Remove a group but keep what it held, as the model's `remove_group` says.
fn remove_group(nodes: &mut Vec<ProjectNode>, id: u32) -> (r: bool)
    ensures
        r == library_model::remove_group(forest_view(old(nodes)@), id) is Some,
        r ==> forest_view(final(nodes)@) == library_model::remove_group(
            forest_view(old(nodes)@),
            id,
        )->0,
        !r ==> forest_view(final(nodes)@) == forest_view(old(nodes)@),
    decreases library_model::count_groups(forest_view(old(nodes)@)),
{
    let ghost f = forest_view(nodes@);
    let ghost direct = group_with(id);
    let ghost below = group_holder_below(id);
    let mut i: usize = 0;
    while i < nodes.len()
        invariant
            i <= nodes@.len(),
            nodes@ == old(nodes)@,
            f == forest_view(old(nodes)@),
            direct == group_with(id),
            forall|j: int| 0 <= j < i ==> !is_group_with(#[trigger] f[j], id),
        decreases nodes@.len() - i,
    {
        proof {
            lemma_forest_view(nodes@);
        }
        let hit = match &nodes[i] {
            ProjectNode::Group(group) => group.id == id,
            ProjectNode::Project(_) => false,
        };
        if hit {
            let ghost original = nodes@;
            let node = nodes.remove(i);
            proof {
                assert(is_group_with(f[i as int], id));
                lemma_first_index(f, direct, i as int);
            }
            match node {
                ProjectNode::Group(group) => {
                    let mut children = group.nodes;
                    let ghost all = children@;
                    let total = children.len();
                    let mut offset: usize = 0;
                    while children.len() > 0
                        invariant
                            offset + children@.len() == all.len(),
                            total == all.len(),
                            children@ == all.skip(offset as int),
                            i < original.len(),
                            i + offset <= nodes@.len(),
                            nodes@ == original.take(i as int) + all.take(offset as int)
                                + original.skip(i + 1),
                        decreases children@.len(),
                    {
                        let child = children.remove(0);
                        let length = nodes.len();
                        nodes.insert(i + offset, child);
                        proof {
                            assert(all.take(offset + 1) =~= all.take(offset as int).push(child));
                            assert(nodes@ =~= original.take(i as int) + all.take(offset + 1)
                                + original.skip(i + 1));
                        }
                        offset = offset + 1;
                        proof {
                            assert(children@ =~= all.skip(offset as int));
                        }
                    }
                    proof {
                        assert(all.take(offset as int) =~= all);
                        lemma_forest_view_concat(original.take(i as int), all);
                        lemma_forest_view_concat(original.take(i as int) + all, original.skip(i + 1));
                        lemma_forest_view_take(original, i as int);
                        lemma_forest_view_skip(original, i + 1);
                        assert(f[i as int] == NodeModel::Group(group@));
                    }
                    return true;
                },
                ProjectNode::Project(_) => {
                    proof {
                        assert(false);
                    }
                    return false;
                },
            }
        }
        i = i + 1;
    }
    proof {
        lemma_forest_view(nodes@);
        assert forall|k: int| 0 <= k < f.len() implies !direct(#[trigger] f[k]) by {}
        lemma_no_first(f, direct);
    }
    let mut i: usize = 0;
    while i < nodes.len()
        invariant
            i <= nodes@.len(),
            f == forest_view(old(nodes)@),
            forest_view(nodes@) == f,
            nodes@.len() == f.len(),
            direct == group_with(id),
            below == group_holder_below(id),
            !has_first(f, direct),
            forall|j: int| 0 <= j < i ==> !holds_group_below(#[trigger] f[j], id),
        decreases nodes@.len() - i,
    {
        proof {
            lemma_forest_view(nodes@);
        }
        let is_group = match &nodes[i] {
            ProjectNode::Group(_) => true,
            ProjectNode::Project(_) => false,
        };
        if is_group {
            let ghost current = nodes@;
            let node = nodes.remove(i);
            match node {
                ProjectNode::Group(mut group) => {
                    let ghost g0 = group@;
                    proof {
                        assert(f[i as int] == NodeModel::Group(g0));
                        lemma_child_bounds(current, i as int, seq![]);
                        lemma_places_len(forest_view(group.nodes@), seq![], seq![].push(g0));
                        lemma_detach_succeeds(g0.children, seq![], id);
                    }
                    let removed = remove_group(&mut group.nodes, id);
                    nodes.insert(i, ProjectNode::Group(group));
                    proof {
                        assert(nodes@ =~= current.update(i as int, ProjectNode::Group(group)));
                        lemma_forest_view_update(current, i as int, ProjectNode::Group(group));
                    }
                    if removed {
                        proof {
                            assert(holds_group_below(f[i as int], id));
                            lemma_first_index(f, below, i as int);
                        }
                        return true;
                    }
                    proof {
                        assert(group@ == g0);
                        assert(f.update(i as int, NodeModel::Group(g0)) =~= f);
                    }
                },
                ProjectNode::Project(project) => {
                    nodes.insert(i, ProjectNode::Project(project));
                    proof {
                        assert(nodes@ =~= current);
                    }
                },
            }
        }
        i = i + 1;
    }
    proof {
        assert forall|k: int| 0 <= k < f.len() implies !below(#[trigger] f[k]) by {}
        lemma_no_first(f, below);
    }
    false
}

/// The group name to store: `name` without surrounding white space, refused
/// when empty, longer than the project-name bound, or not a one-line label.
fn trimmed_group_name(name: &str) -> (r: Result<String, String>)
    ensures
        match group_name_refusal(name@) {
            Some(message) => r is Err && r->Err_0@ == message,
            None => r is Ok && r->Ok_0@ == trim(name@),
        },
{
    let trimmed = trimmed(name);
    let text = trimmed.as_str();
    if text.is_empty() {
        return Err("Enter a name for this group.".to_owned());
    }
    if text.as_bytes().len() > MAX_PROJECT_NAME_BYTES {
        return Err("Use a group name of at most 128 bytes.".to_owned());
    }
    match validate_project_name(text) {
        Ok(()) => Ok(trimmed),
        Err(message) => Err(message),
    }
}

/// The first problem of a forest is in its longest problem-free prefix's
/// next node, once that node has one.
proof fn lemma_problem_step(nodes: Seq<ProjectNode>, i: int, depth: nat)
    requires
        0 <= i < nodes.len(),
        first_problem(forest_view(nodes.take(i)), depth) is None,
    ensures
        first_problem(forest_view(nodes.take(i + 1)), depth) == node_problem(nodes[i]@, depth),
        node_problem(nodes[i]@, depth) is Some ==> first_problem(forest_view(nodes), depth)
            == node_problem(nodes[i]@, depth),
{
    lemma_forest_view_step(nodes, i);
    lemma_forest_view(nodes);
    lemma_forest_view_take(nodes, i + 1);
    let f = forest_view(nodes);
    assert(f.take(i + 1) + f.skip(i + 1) =~= f);
    lemma_first_problem_append(f.take(i + 1), f.skip(i + 1), depth);
}

/// The index of the first project at the top level of a forest.
fn first_top_project(nodes: &Vec<ProjectNode>) -> (r: Option<usize>)
    ensures
        match r {
            Some(k) => is_first(forest_view(nodes@), top_project(), k as int),
            None => forall|k: int|
                0 <= k < nodes@.len() ==> !top_project()(#[trigger] forest_view(nodes@)[k]),
        },
{
    proof {
        lemma_forest_view(nodes@);
    }
    let mut index: usize = 0;
    while index < nodes.len()
        invariant
            index <= nodes@.len(),
            forest_view(nodes@).len() == nodes@.len(),
            forall|k: int| 0 <= k < nodes@.len() ==> #[trigger] forest_view(nodes@)[k] == nodes@[k]@,
            forall|j: int| 0 <= j < index ==> !top_project()(#[trigger] forest_view(nodes@)[j]),
        decreases nodes@.len() - index,
    {
        if let ProjectNode::Project(_) = &nodes[index] {
            return Some(index);
        }
        index = index + 1;
    }
    None
}

fn validate_nodes(
    nodes: &Vec<ProjectNode>,
    depth: usize,
    ids: &mut Vec<u32>,
    paths: &mut Vec<Vec<u8>>,
    Ghost(above): Ghost<Seq<GroupModel>>,
) -> (r: Result<(), String>)
    requires
        depth == above.len(),
        depth <= MAX_DEPTH,
    ensures
        match first_problem(forest_view(nodes@), depth as nat) {
            Some(problem) => r is Err && r->Err_0@ == problem,
            None => {
                &&& r is Ok
                &&& final(ids)@ == old(ids)@ + group_places(forest_view(nodes@), above).map_values(
                    |p: GroupPlace| p.group.id,
                )
                &&& views(final(paths)@) == views(old(paths)@) + place_paths(
                    project_places(forest_view(nodes@), above),
                )
            },
        },
    decreases nodes@,
{
    let ghost start_ids = ids@;
    let ghost start_paths = views(paths@);
    let mut i: usize = 0;
    while i < nodes.len()
        invariant
            i <= nodes@.len(),
            depth == above.len(),
            depth <= MAX_DEPTH,
            first_problem(forest_view(nodes@.take(i as int)), depth as nat) is None,
            ids@ == start_ids + group_places(forest_view(nodes@.take(i as int)), above).map_values(
                |p: GroupPlace| p.group.id,
            ),
            views(paths@) == start_paths + place_paths(
                project_places(forest_view(nodes@.take(i as int)), above),
            ),
        decreases nodes@.len() - i,
    {
        proof {
            lemma_places_step(nodes@, i as int, above);
            lemma_forest_view_step(nodes@, i as int);
        }
        let ghost gprefix = group_places(forest_view(nodes@.take(i as int)), above);
        let ghost pprefix = project_places(forest_view(nodes@.take(i as int)), above);
        match &nodes[i] {
            ProjectNode::Group(group) => {
                proof {
                    lemma_problem_step(nodes@, i as int, depth as nat);
                }
                if depth >= MAX_DEPTH {
                    return Err("Groups can nest up to 5 levels deep.".to_owned());
                }
                match trimmed_group_name(group.name.as_str()) {
                    Ok(_) => {},
                    Err(message) => return Err(message),
                }
                let ghost before = ids@;
                ids.push(group.id);
                proof {
                    assert(ids@ == start_ids + (gprefix + seq![
                        GroupPlace { group: group@, above: above },
                    ]).map_values(|p: GroupPlace| p.group.id)) by {
                        assert(ids@ =~= start_ids + (gprefix + seq![
                            GroupPlace { group: group@, above: above },
                        ]).map_values(|p: GroupPlace| p.group.id));
                    }
                }
                let inner = validate_nodes(&group.nodes, depth + 1, ids, paths, Ghost(above.push(group@)));
                match inner {
                    Ok(()) => {},
                    Err(message) => return Err(message),
                }
                proof {
                    let head = seq![GroupPlace { group: group@, above: above }];
                    let rest = group_places(forest_view(group.nodes@), above.push(group@));
                    assert(gprefix + group_part(nodes@[i as int]@, above) =~= gprefix + head + rest);
                    assert(ids@ =~= start_ids + (gprefix + head + rest).map_values(
                        |p: GroupPlace| p.group.id,
                    ));
                    assert(views(paths@) =~= start_paths + place_paths(
                        pprefix + project_part(nodes@[i as int]@, above),
                    ));
                }
            },
            ProjectNode::Project(path) => {
                proof {
                    lemma_problem_step(nodes@, i as int, depth as nat);
                }
                if !path_is_absolute(path.as_slice()) {
                    return Err("A saved project path must be absolute.".to_owned());
                }
                let ghost before = views(paths@);
                paths.push(copy_bytes(path.as_slice()));
                proof {
                    assert(views(paths@) =~= before.push(path@));
                    assert(views(paths@) =~= start_paths + place_paths(
                        pprefix + project_part(nodes@[i as int]@, above),
                    ));
                    assert(ids@ =~= start_ids + (gprefix + group_part(nodes@[i as int]@, above)).map_values(
                        |p: GroupPlace| p.group.id,
                    ));
                }
            },
        }
        i = i + 1;
    }
    proof {
        lemma_forest_view_whole(nodes@);
    }
    Ok(())
}

/// Whether two identifiers in the list are the same.
fn has_repeated_id(ids: &Vec<u32>) -> (r: bool)
    ensures
        r == !unique_ids(ids@),
{
    let mut i: usize = 0;
    while i < ids.len()
        invariant
            i <= ids@.len(),
            forall|a: int, b: int| 0 <= a < b < ids@.len() && a < i ==> ids@[a] != ids@[b],
        decreases ids@.len() - i,
    {
        let mut j: usize = i + 1;
        while j < ids.len()
            invariant
                i < ids@.len(),
                i + 1 <= j <= ids@.len(),
                forall|b: int| i < b < j ==> ids@[i as int] != ids@[b],
            decreases ids@.len() - j,
        {
            if ids[i] == ids[j] {
                return true;
            }
            j = j + 1;
        }
        i = i + 1;
    }
    false
}

/// Whether two paths in the list name the same place.
fn has_repeated_path(paths: &Vec<Vec<u8>>) -> (r: bool)
    ensures
        r == !unique_paths(views(paths@)),
{
    let mut i: usize = 0;
    while i < paths.len()
        invariant
            i <= paths@.len(),
            forall|a: int, b: int|
                0 <= a < b < paths@.len() && a < i ==> !same_path(views(paths@)[a], views(paths@)[b]),
        decreases paths@.len() - i,
    {
        let mut j: usize = i + 1;
        while j < paths.len()
            invariant
                i < paths@.len(),
                i + 1 <= j <= paths@.len(),
                forall|b: int| i < b < j ==> !same_path(views(paths@)[i as int], views(paths@)[b]),
            decreases paths@.len() - j,
        {
            if paths_equal(paths[i].as_slice(), paths[j].as_slice()) {
                proof {
                    assert(views(paths@)[i as int] == paths@[i as int]@);
                    assert(views(paths@)[j as int] == paths@[j as int]@);
                }
                return true;
            }
            j = j + 1;
        }
        i = i + 1;
    }
    false
}

impl ProjectLibrary {
    /// Reject a stored list the application cannot present faithfully. A
    /// caller refuses the file rather than dropping the user's groups when an
    /// unrelated settings or draft write rewrites it.
    pub fn validate(&self) -> (r: Result<(), String>)
        ensures
            match validation_error(self@) {
                Some(problem) => r is Err && r->Err_0@ == problem,
                None => r is Ok,
            },
    {
        let mut ids: Vec<u32> = Vec::new();
        let mut paths: Vec<Vec<u8>> = Vec::new();
        match validate_nodes(&self.nodes, 0, &mut ids, &mut paths, Ghost(Seq::<GroupModel>::empty())) {
            Ok(()) => {},
            Err(message) => return Err(message),
        }
        proof {
            assert(ids@ =~= group_ids(self@));
            assert(views(paths@) =~= project_paths(self@));
        }
        if ids.len() > MAX_GROUPS {
            return Err("Up to 64 groups can be saved.".to_owned());
        }
        if paths.len() > MAX_PROJECTS {
            return Err("Up to 256 projects can be saved.".to_owned());
        }
        if has_repeated_id(&ids) {
            return Err("Two groups share an identifier.".to_owned());
        }
        if has_repeated_path(&paths) {
            return Err("A project appears twice in the project list.".to_owned());
        }
        Ok(())
    }

    /// Add a project the user opened. The project joins the end of the top
    /// level, because the application cannot know which group it belongs to.
    /// A full list drops its oldest ungrouped project; grouped projects stay.
    pub fn remember(&mut self, path: &[u8]) -> (r: bool)
        requires
            old(self).countable(),
        ensures
            (r, final(self)@) == library_model::remember(old(self)@, path@),
    {
        if !path_is_absolute(path) || self.contains_project(path) {
            return false;
        }
        while self.project_count() >= MAX_PROJECTS
            invariant
                self.countable(),
                make_room(self@) == make_room(old(self)@),
                is_absolute(path@),
                !library_model::contains_project(old(self)@, path@),
            decreases library_model::count_projects(self@),
        {
            proof {
                lemma_forest_view(self.nodes@);
            }
            let index = match first_top_project(&self.nodes) {
                Some(index) => index,
                None => {
                    proof {
                        lemma_no_first(self@, top_project());
                    }
                    return false;
                },
            };
            let ghost before = self.nodes@;
            let ghost f = self@;
            proof {
                lemma_first_index(f, top_project(), index as int);
                lemma_remove_top_project(f, index as int, seq![]);
            }
            self.nodes.remove(index);
            proof {
                lemma_forest_view_remove(before, index as int);
            }
        }
        let ghost before = self.nodes@;
        self.nodes.push(ProjectNode::Project(copy_bytes(path)));
        proof {
            assert(self.nodes@.drop_last() =~= before);
        }
        true
    }
}

impl ProjectLibrary {
    fn attach(&mut self, node: ProjectNode, into: Option<u32>)
        ensures
            final(self)@ == library_model::attach(old(self)@, node@, into),
    {
        match into {
            Some(id) => {
                let leftover = edit_group(&mut self.nodes, id, Edit::Append(node));
                if let Some(Edit::Append(unused)) = leftover {
                    let ghost before = self.nodes@;
                    self.nodes.push(unused);
                    proof {
                        assert(self.nodes@.drop_last() =~= before);
                    }
                }
            },
            None => {
                let ghost before = self.nodes@;
                self.nodes.push(node);
                proof {
                    assert(self.nodes@.drop_last() =~= before);
                }
            },
        }
    }

    pub fn forget_project(&mut self, path: &[u8]) -> (r: bool)
        ensures
            match library_model::detach_project(old(self)@, path@) {
                Some((rest, _)) => r && final(self)@ == rest,
                None => !r && final(self)@ == old(self)@,
            },
    {
        detach_project(&mut self.nodes, path).is_some()
    }

    pub fn create_group(&mut self, parent: Option<u32>, name: &str) -> (r: Result<u32, String>)
        requires
            old(self).countable(),
        ensures
            match library_model::create_group(old(self)@, parent, name@) {
                Ok((id, after)) => r == Ok::<u32, String>(id) && final(self)@ == after,
                Err(message) => r is Err && r->Err_0@ == message && final(self)@ == old(self)@,
            },
    {
        let name = match trimmed_group_name(name) {
            Ok(name) => name,
            Err(message) => return Err(message),
        };
        if self.group_count() >= MAX_GROUPS {
            return Err("Up to 64 groups can be saved. Remove a group before adding another.".to_owned());
        }
        let depth = match parent {
            Some(id) => match self.depth_of(id) {
                Some(depth) => depth,
                None => return Err("That group is no longer in the project list.".to_owned()),
            },
            None => 0,
        };
        if depth >= MAX_DEPTH {
            return Err("Groups can nest up to 5 levels deep.".to_owned());
        }
        let id = self.next_group_id();
        let group = ProjectNode::Group(
            ProjectGroup { id, name, collapsed: false, nodes: Vec::new() },
        );
        proof {
            assert(forest_view(Seq::<ProjectNode>::empty()) =~= Seq::<NodeModel>::empty());
        }
        self.attach(group, parent);
        Ok(id)
    }

    pub fn rename_group(&mut self, id: u32, name: &str) -> (r: Result<(), String>)
        ensures
            match library_model::rename_group(old(self)@, id, name@) {
                Ok(after) => r is Ok && final(self)@ == after,
                Err(message) => r is Err && r->Err_0@ == message && final(self)@ == old(self)@,
            },
    {
        let name = match trimmed_group_name(name) {
            Ok(name) => name,
            Err(message) => return Err(message),
        };
        match edit_group(&mut self.nodes, id, Edit::Rename(name)) {
            None => Ok(()),
            Some(_) => Err("That group is no longer in the project list.".to_owned()),
        }
    }

    /// Remove the group only. Its projects and subgroups take its place, so a
    /// removal never hides a project the user still opens.
    pub fn remove_group(&mut self, id: u32) -> (r: bool)
        ensures
            match library_model::remove_group(old(self)@, id) {
                Some(after) => r && final(self)@ == after,
                None => !r && final(self)@ == old(self)@,
            },
    {
        remove_group(&mut self.nodes, id)
    }

    pub fn set_collapsed(&mut self, id: u32, collapsed: bool) -> (r: bool)
        ensures
            (r, final(self)@) == library_model::set_collapsed(old(self)@, id, collapsed),
    {
        let change = match self.group(id) {
            Some(group) => group.collapsed != collapsed,
            None => false,
        };
        if change {
            let _ = edit_group(&mut self.nodes, id, Edit::Collapse(collapsed));
        }
        change
    }

    /// Move a known project into a group, or to the top level with `None`.
    pub fn move_project(&mut self, path: &[u8], into: Option<u32>) -> (r: Result<(), String>)
        requires
            old(self).countable(),
        ensures
            match library_model::move_project(old(self)@, path@, into) {
                Ok(after) => r is Ok && final(self)@ == after,
                Err(message) => r is Err && r->Err_0@ == message && final(self)@ == old(self)@,
            },
    {
        if let Some(id) = into {
            if self.depth_of(id).is_none() {
                return Err("That group is no longer in the project list.".to_owned());
            }
        }
        let node = match detach_project(&mut self.nodes, path) {
            Some(node) => node,
            None => return Err("That project is no longer in the project list.".to_owned()),
        };
        self.attach(node, into);
        Ok(())
    }

    /// Move a group, with everything inside it, into another group or to the
    /// top level. A group can never become its own descendant.
    pub fn move_group(&mut self, id: u32, into: Option<u32>) -> (r: Result<(), String>)
        requires
            old(self).countable(),
        ensures
            match library_model::move_group(old(self)@, id, into) {
                Ok(after) => r is Ok && final(self)@ == after,
                Err(message) => r is Err && r->Err_0@ == message && final(self)@ == old(self)@,
            },
    {
        if into == Some(id) {
            return Err("Choose a different group.".to_owned());
        }
        let target_depth = match into {
            Some(target) => {
                if self.group_contains(id, target) {
                    return Err("A group cannot move inside one of its own groups.".to_owned());
                }
                match self.depth_of(target) {
                    Some(depth) => depth,
                    None => return Err("That group is no longer in the project list.".to_owned()),
                }
            },
            None => 0,
        };
        let height = match self.group_height(id) {
            Some(height) => height,
            None => return Err("That group is no longer in the project list.".to_owned()),
        };
        if height > MAX_DEPTH || target_depth > MAX_DEPTH - height {
            return Err("Groups can nest up to 5 levels deep.".to_owned());
        }
        let node = match detach_group(&mut self.nodes, id) {
            Some(node) => node,
            None => return Err("That group is no longer in the project list.".to_owned()),
        };
        self.attach(node, into);
        Ok(())
    }
}

} // verus!
