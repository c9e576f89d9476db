//! The mathematical model of the project list: a forest of groups and
//! project paths, and the places of its groups and projects in saved order.

use vstd::prelude::*;
use crate::paths::{is_absolute, same_path};
use crate::preferences::project_name_refusal;
use crate::sorting::sort_entries;
use crate::text::{lowercase, trim, utf8_len};

verus! {

/// A node of the project list: a group with its children, or a project path.
pub enum NodeModel {
    Group(GroupModel),
    Project(Seq<u8>),
}

pub struct GroupModel {
    pub id: u32,
    pub name: Seq<char>,
    pub collapsed: bool,
    pub children: Seq<NodeModel>,
}

/// A group in saved (depth-first) order, with the groups that enclose it,
/// outermost first.
pub struct GroupPlace {
    pub group: GroupModel,
    pub above: Seq<GroupModel>,
}

/// A project in saved order, with the groups that enclose it.
pub struct ProjectPlace {
    pub path: Seq<u8>,
    pub above: Seq<GroupModel>,
}

/// The group that directly holds a node enclosed by `above`.
pub open spec fn parent_id(above: Seq<GroupModel>) -> Option<u32> {
    if above.len() == 0 {
        None
    } else {
        Some(above.last().id)
    }
}

/// Every group of `forest`, each before its own children, in saved order.
pub open spec fn group_places(forest: Seq<NodeModel>, above: Seq<GroupModel>) -> Seq<GroupPlace>
    decreases forest,
{
    if forest.len() == 0 {
        seq![]
    } else {
        group_places(forest.drop_last(), above) + group_part(forest.last(), above)
    }
}

/// The groups of one node: a group and then the groups inside it.
pub open spec fn group_part(node: NodeModel, above: Seq<GroupModel>) -> Seq<GroupPlace>
    decreases node,
{
    match node {
        NodeModel::Group(g) => seq![GroupPlace { group: g, above: above }] + group_places(
            g.children,
            above.push(g),
        ),
        NodeModel::Project(_) => seq![],
    }
}

/// Every project of `forest`, in saved order.
pub open spec fn project_places(forest: Seq<NodeModel>, above: Seq<GroupModel>) -> Seq<
    ProjectPlace,
>
    decreases forest,
{
    if forest.len() == 0 {
        seq![]
    } else {
        project_places(forest.drop_last(), above) + project_part(forest.last(), above)
    }
}

/// The projects of one node: the node itself, or those inside the group.
pub open spec fn project_part(node: NodeModel, above: Seq<GroupModel>) -> Seq<ProjectPlace>
    decreases node,
{
    match node {
        NodeModel::Group(g) => project_places(g.children, above.push(g)),
        NodeModel::Project(p) => seq![ProjectPlace { path: p, above: above }],
    }
}

/// The first place in `places` of a group with identifier `id`.
pub open spec fn first_place(places: Seq<GroupPlace>, id: u32) -> Option<GroupPlace>
    decreases places.len(),
{
    if places.len() == 0 {
        None
    } else {
        match first_place(places.drop_last(), id) {
            Some(found) => Some(found),
            None => if places.last().group.id == id {
                Some(places.last())
            } else {
                None
            },
        }
    }
}

/// The first project place in `places` at the same path as `path`.
pub open spec fn first_project(places: Seq<ProjectPlace>, path: Seq<u8>) -> Option<ProjectPlace>
    decreases places.len(),
{
    if places.len() == 0 {
        None
    } else {
        match first_project(places.drop_last(), path) {
            Some(found) => Some(found),
            None => if same_path(places.last().path, path) {
                Some(places.last())
            } else {
                None
            },
        }
    }
}

/// The group of the forest with identifier `id` that a depth-first search
/// meets first, with its place.
pub open spec fn find_group(forest: Seq<NodeModel>, id: u32) -> Option<GroupPlace> {
    first_place(group_places(forest, seq![]), id)
}

pub open spec fn count_groups(forest: Seq<NodeModel>) -> nat {
    group_places(forest, seq![]).len()
}

pub open spec fn count_projects(forest: Seq<NodeModel>) -> nat {
    project_places(forest, seq![]).len()
}

/// The project paths of the forest, in saved order.
pub open spec fn project_paths(forest: Seq<NodeModel>) -> Seq<Seq<u8>> {
    project_places(forest, seq![]).map_values(|p: ProjectPlace| p.path)
}

pub open spec fn contains_project(forest: Seq<NodeModel>, path: Seq<u8>) -> bool {
    first_project(project_places(forest, seq![]), path) is Some
}

pub proof fn lemma_first_place_append(a: Seq<GroupPlace>, b: Seq<GroupPlace>, id: u32)
    ensures
        first_place(a + b, id) == match first_place(a, id) {
            Some(found) => Some(found),
            None => first_place(b, id),
        },
    decreases b.len(),
{
    if b.len() == 0 {
        assert(a + b =~= a);
    } else {
        lemma_first_place_append(a, b.drop_last(), id);
        assert((a + b).drop_last() =~= a + b.drop_last());
    }
}

pub proof fn lemma_first_project_append(a: Seq<ProjectPlace>, b: Seq<ProjectPlace>, path: Seq<u8>)
    ensures
        first_project(a + b, path) == match first_project(a, path) {
            Some(found) => Some(found),
            None => first_project(b, path),
        },
    decreases b.len(),
{
    if b.len() == 0 {
        assert(a + b =~= a);
    } else {
        lemma_first_project_append(a, b.drop_last(), path);
        assert((a + b).drop_last() =~= a + b.drop_last());
    }
}

/// A first match is a member of the list with that identifier, and nothing
/// before it has the identifier.
pub proof fn lemma_first_place_found(places: Seq<GroupPlace>, id: u32)
    ensures
        first_place(places, id) is None <==> forall|i: int|
            0 <= i < places.len() ==> #[trigger] places[i].group.id != id,
        first_place(places, id) is Some ==> exists|i: int|
            0 <= i < places.len() && places[i] == first_place(places, id)->0 && places[i].group.id
                == id && forall|k: int| 0 <= k < i ==> #[trigger] places[k].group.id != id,
    decreases places.len(),
{
    if places.len() > 0 {
        lemma_first_place_found(places.drop_last(), id);
        let prefix = places.drop_last();
        if first_place(prefix, id) is Some {
            let i = choose|i: int|
                0 <= i < prefix.len() && prefix[i] == first_place(prefix, id)->0
                    && prefix[i].group.id == id && forall|k: int|
                    0 <= k < i ==> #[trigger] prefix[k].group.id != id;
            assert(places[i] == prefix[i]);
            assert forall|k: int| 0 <= k < i implies #[trigger] places[k].group.id != id by {
                assert(places[k] == prefix[k]);
            }
        } else {
            assert forall|i: int| 0 <= i < places.len() - 1 implies #[trigger] places[i].group.id
                != id by {
                assert(places[i] == prefix[i]);
            }
            if places.last().group.id == id {
                let i = places.len() - 1;
                assert forall|k: int| 0 <= k < i implies #[trigger] places[k].group.id != id by {
                    assert(places[k] == prefix[k]);
                }
            }
        }
    }
}


pub proof fn lemma_group_places_append(a: Seq<NodeModel>, b: Seq<NodeModel>, above: Seq<GroupModel>)
    ensures
        group_places(a + b, above) == group_places(a, above) + group_places(b, above),
    decreases b.len(),
{
    if b.len() == 0 {
        assert(a + b =~= a);
        assert(group_places(a, above) + group_places(b, above) =~= group_places(a, above));
    } else {
        lemma_group_places_append(a, b.drop_last(), above);
        assert((a + b).drop_last() =~= a + b.drop_last());
        assert((a + b).last() == b.last());
        assert(group_places(a + b, above) =~= group_places(a, above) + group_places(b, above));
    }
}

pub proof fn lemma_project_places_append(
    a: Seq<NodeModel>,
    b: Seq<NodeModel>,
    above: Seq<GroupModel>,
)
    ensures
        project_places(a + b, above) == project_places(a, above) + project_places(b, above),
    decreases b.len(),
{
    if b.len() == 0 {
        assert(a + b =~= a);
        assert(project_places(a, above) + project_places(b, above) =~= project_places(a, above));
    } else {
        lemma_project_places_append(a, b.drop_last(), above);
        assert((a + b).drop_last() =~= a + b.drop_last());
        assert((a + b).last() == b.last());
        assert(project_places(a + b, above) =~= project_places(a, above) + project_places(
            b,
            above,
        ));
    }
}

/// A prefix of a forest has no more groups or projects than the forest.
pub proof fn lemma_prefix_places(f: Seq<NodeModel>, i: int, above: Seq<GroupModel>)
    requires
        0 <= i <= f.len(),
    ensures
        group_places(f.take(i), above).len() <= group_places(f, above).len(),
        project_places(f.take(i), above).len() <= project_places(f, above).len(),
{
    lemma_group_places_append(f.take(i), f.skip(i), above);
    lemma_project_places_append(f.take(i), f.skip(i), above);
    assert(f.take(i) + f.skip(i) =~= f);
}


/// What a "Move to…" menu shows of a group: its identifier, name and
/// indentation depth.
pub struct GroupEntryModel {
    pub id: u32,
    pub name: Seq<char>,
    pub depth: nat,
}

pub open spec fn place_entry(place: GroupPlace) -> GroupEntryModel {
    GroupEntryModel { id: place.group.id, name: place.group.name, depth: place.above.len() }
}

/// Every group, in saved order, with its depth from zero at the top level.
pub open spec fn group_entries(forest: Seq<NodeModel>) -> Seq<GroupEntryModel> {
    group_places(forest, seq![]).map_values(|p: GroupPlace| place_entry(p))
}

/// One-based depth of a group: a top-level group has depth one.
pub open spec fn depth_of(forest: Seq<NodeModel>, id: u32) -> Option<nat> {
    match find_group(forest, id) {
        Some(place) => Some(place.above.len() + 1),
        None => None,
    }
}

/// `None` when the group is missing; `Some(None)` at the top level.
pub open spec fn parent_of_group(forest: Seq<NodeModel>, id: u32) -> Option<Option<u32>> {
    match find_group(forest, id) {
        Some(place) => Some(parent_id(place.above)),
        None => None,
    }
}

/// The group holding a project, or `None` at the top level or when the
/// project is not in the list.
pub open spec fn parent_of_project(forest: Seq<NodeModel>, path: Seq<u8>) -> Option<u32> {
    match first_project(project_places(forest, seq![]), path) {
        Some(place) => parent_id(place.above),
        None => None,
    }
}

pub open spec fn group_names(groups: Seq<GroupModel>) -> Seq<Seq<char>> {
    groups.map_values(|g: GroupModel| g.name)
}

/// Group names from the top level down to the group; empty when missing.
pub open spec fn group_path(forest: Seq<NodeModel>, id: u32) -> Seq<Seq<char>> {
    match find_group(forest, id) {
        Some(place) => group_names(place.above.push(place.group)),
        None => seq![],
    }
}

/// Whether `candidate` sits anywhere inside `ancestor`.
pub open spec fn group_contains(forest: Seq<NodeModel>, ancestor: u32, candidate: u32) -> bool {
    match find_group(forest, ancestor) {
        Some(place) => find_group(place.group.children, candidate) is Some,
        None => false,
    }
}

/// The most levels of groups in a forest.
pub open spec fn forest_height(forest: Seq<NodeModel>) -> nat
    decreases forest,
{
    if forest.len() == 0 {
        0
    } else {
        let rest = forest_height(forest.drop_last());
        let last = node_height(forest.last());
        if rest >= last {
            rest
        } else {
            last
        }
    }
}

/// Levels a node occupies: a group counts itself and its deepest child.
pub open spec fn node_height(node: NodeModel) -> nat
    decreases node,
{
    match node {
        NodeModel::Group(g) => 1 + forest_height(g.children),
        NodeModel::Project(_) => 0,
    }
}

/// Levels a group occupies, counting itself; `None` when it is missing.
pub open spec fn group_height(forest: Seq<NodeModel>, id: u32) -> Option<nat> {
    match find_group(forest, id) {
        Some(place) => Some(node_height(NodeModel::Group(place.group))),
        None => None,
    }
}

/// A forest is never taller than it has groups.
pub proof fn lemma_height_bound(forest: Seq<NodeModel>, above: Seq<GroupModel>)
    ensures
        forest_height(forest) <= group_places(forest, above).len(),
    decreases forest,
{
    if forest.len() > 0 {
        lemma_height_bound(forest.drop_last(), above);
        match forest.last() {
            NodeModel::Group(g) => {
                lemma_height_bound(g.children, above.push(g));
                assert(node_height(forest.last()) == 1 + forest_height(g.children));
                assert(group_part(forest.last(), above).len() == 1 + group_places(
                    g.children,
                    above.push(g),
                ).len());
            },
            NodeModel::Project(_) => {
                assert(node_height(forest.last()) == 0);
            },
        }
        assert(group_places(forest, above).len() == group_places(forest.drop_last(), above).len()
            + group_part(forest.last(), above).len());
    }
}

/// The largest group identifier among `places`, or zero.
pub open spec fn max_group_id(places: Seq<GroupPlace>) -> u32
    decreases places.len(),
{
    if places.len() == 0 {
        0
    } else {
        let rest = max_group_id(places.drop_last());
        if rest >= places.last().group.id {
            rest
        } else {
            places.last().group.id
        }
    }
}

/// The identifier a new group receives: one past the largest in use,
/// saturating at the largest `u32`; one in an empty list.
pub open spec fn next_group_id(forest: Seq<NodeModel>) -> u32 {
    let m = max_group_id(group_places(forest, seq![]));
    if m == u32::MAX {
        u32::MAX
    } else {
        (m + 1) as u32
    }
}


/// Every group and project place has the same count whatever encloses it.
pub proof fn lemma_places_len(forest: Seq<NodeModel>, a: Seq<GroupModel>, b: Seq<GroupModel>)
    ensures
        group_places(forest, a).len() == group_places(forest, b).len(),
        project_places(forest, a).len() == project_places(forest, b).len(),
    decreases forest,
{
    if forest.len() > 0 {
        lemma_places_len(forest.drop_last(), a, b);
        match forest.last() {
            NodeModel::Group(g) => {
                lemma_places_len(g.children, a.push(g), b.push(g));
                assert(group_part(forest.last(), a).len() == 1 + group_places(
                    g.children,
                    a.push(g),
                ).len());
                assert(group_part(forest.last(), b).len() == 1 + group_places(
                    g.children,
                    b.push(g),
                ).len());
                assert(project_part(forest.last(), a) == project_places(g.children, a.push(g)));
                assert(project_part(forest.last(), b) == project_places(g.children, b.push(g)));
            },
            NodeModel::Project(p) => {
                assert(group_part(forest.last(), a).len() == 0);
                assert(group_part(forest.last(), b).len() == 0);
                assert(project_part(forest.last(), a).len() == 1);
                assert(project_part(forest.last(), b).len() == 1);
            },
        }
        assert(group_places(forest, a).len() == group_places(forest.drop_last(), a).len()
            + group_part(forest.last(), a).len());
        assert(group_places(forest, b).len() == group_places(forest.drop_last(), b).len()
            + group_part(forest.last(), b).len());
        assert(project_places(forest, a).len() == project_places(forest.drop_last(), a).len()
            + project_part(forest.last(), a).len());
        assert(project_places(forest, b).len() == project_places(forest.drop_last(), b).len()
            + project_part(forest.last(), b).len());
    }
}

pub proof fn lemma_first_project_single(place: ProjectPlace, path: Seq<u8>)
    ensures
        first_project(seq![place], path) == if same_path(place.path, path) {
            Some(place)
        } else {
            None
        },
{
    assert(seq![place].drop_last() =~= Seq::<ProjectPlace>::empty());
    assert(first_project(Seq::<ProjectPlace>::empty(), path) is None);
}

/// One visible line of the pane. Collapsed groups hide their descendants, so
/// a row list is shorter than the tree it comes from.
pub enum RowModel {
    Group { id: u32, name: Seq<char>, depth: nat, collapsed: bool, projects: nat },
    Project { path: Seq<u8>, depth: nat, parent: Option<u32> },
}

/// Rows in saved order: at each level the groups, each followed by its own
/// rows unless it is collapsed, and then the projects.
pub open spec fn saved_rows(forest: Seq<NodeModel>, depth: nat, parent: Option<u32>) -> Seq<
    RowModel,
>
    decreases forest, 1nat,
{
    group_rows(forest, depth) + project_rows(forest, depth, parent)
}

pub open spec fn group_rows(forest: Seq<NodeModel>, depth: nat) -> Seq<RowModel>
    decreases forest, 0nat,
{
    if forest.len() == 0 {
        seq![]
    } else {
        group_rows(forest.drop_last(), depth) + match forest.last() {
            NodeModel::Group(g) => seq![
                RowModel::Group {
                    id: g.id,
                    name: g.name,
                    depth: depth,
                    collapsed: g.collapsed,
                    projects: count_projects(g.children),
                },
            ] + if g.collapsed {
                Seq::<RowModel>::empty()
            } else {
                saved_rows(g.children, depth + 1, Some(g.id))
            },
            NodeModel::Project(_) => seq![],
        }
    }
}

pub open spec fn project_rows(forest: Seq<NodeModel>, depth: nat, parent: Option<u32>) -> Seq<
    RowModel,
>
    decreases forest.len(),
{
    if forest.len() == 0 {
        seq![]
    } else {
        project_rows(forest.drop_last(), depth, parent) + match forest.last() {
            NodeModel::Project(p) => seq![
                RowModel::Project { path: p, depth: depth, parent: parent },
            ],
            NodeModel::Group(_) => seq![],
        }
    }
}


/// Each group's subtree lies within the groups of the whole forest.
pub proof fn lemma_place_subtree_bound(forest: Seq<NodeModel>, above: Seq<GroupModel>, k: int)
    requires
        0 <= k < group_places(forest, above).len(),
    ensures
        ({
            let place = group_places(forest, above)[k];
            group_part(NodeModel::Group(place.group), place.above).len() <= group_places(
                forest,
                above,
            ).len()
        }),
    decreases forest,
{
    let prefix = group_places(forest.drop_last(), above);
    let part = group_part(forest.last(), above);
    assert(group_places(forest, above) == prefix + part);
    if k < prefix.len() {
        lemma_place_subtree_bound(forest.drop_last(), above, k);
        assert(group_places(forest, above)[k] == prefix[k]);
    } else {
        match forest.last() {
            NodeModel::Group(g) => {
                let rest = group_places(g.children, above.push(g));
                let head = seq![GroupPlace { group: g, above: above }];
                assert(part == head + rest);
                if k == prefix.len() {
                    assert(group_places(forest, above)[k] == head[0]);
                } else {
                    let j = k - prefix.len() - 1;
                    lemma_place_subtree_bound(g.children, above.push(g), j);
                    assert(group_places(forest, above)[k] == rest[j]);
                }
            },
            NodeModel::Project(_) => {
                assert(part.len() == 0);
            },
        }
    }
}

/// The group a search finds has its subtree within the whole forest.
pub proof fn lemma_found_subtree_bound(forest: Seq<NodeModel>, id: u32)
    requires
        find_group(forest, id) is Some,
    ensures
        group_part(
            NodeModel::Group(find_group(forest, id)->0.group),
            find_group(forest, id)->0.above,
        ).len() <= count_groups(forest),
{
    lemma_first_place_found(group_places(forest, seq![]), id);
    let places = group_places(forest, seq![]);
    let i = choose|i: int|
        0 <= i < places.len() && places[i] == first_place(places, id)->0 && places[i].group.id
            == id && forall|k: int| 0 <= k < i ==> #[trigger] places[k].group.id != id;
    lemma_place_subtree_bound(forest, seq![], i);
}


pub proof fn lemma_first_place_single(place: GroupPlace, id: u32)
    ensures
        first_place(seq![place], id) == if place.group.id == id {
            Some(place)
        } else {
            None
        },
{
    assert(seq![place].drop_last() =~= Seq::<GroupPlace>::empty());
    assert(first_place(Seq::<GroupPlace>::empty(), id) is None);
}

/// The first match within one group node: the group itself, or the first
/// match among its descendants.
pub proof fn lemma_group_part_first(g: GroupModel, above: Seq<GroupModel>, id: u32)
    ensures
        first_place(group_part(NodeModel::Group(g), above), id) == if g.id == id {
            Some(GroupPlace { group: g, above: above })
        } else {
            first_place(group_places(g.children, above.push(g)), id)
        },
{
    let head = seq![GroupPlace { group: g, above: above }];
    let rest = group_places(g.children, above.push(g));
    assert(group_part(NodeModel::Group(g), above) == head + rest);
    lemma_first_place_append(head, rest, id);
    lemma_first_place_single(head[0], id);
}

/// Which group or project a search finds does not depend on what encloses
/// the forest; only the recorded enclosing groups do.
pub proof fn lemma_search_indep(
    forest: Seq<NodeModel>,
    a: Seq<GroupModel>,
    b: Seq<GroupModel>,
    id: u32,
    path: Seq<u8>,
)
    ensures
        (first_place(group_places(forest, a), id) is Some) == (first_place(
            group_places(forest, b),
            id,
        ) is Some),
        first_place(group_places(forest, a), id) is Some ==> first_place(
            group_places(forest, a),
            id,
        )->0.group == first_place(group_places(forest, b), id)->0.group,
        (first_project(project_places(forest, a), path) is Some) == (first_project(
            project_places(forest, b),
            path,
        ) is Some),
        first_project(project_places(forest, a), path) is Some ==> first_project(
            project_places(forest, a),
            path,
        )->0.path == first_project(project_places(forest, b), path)->0.path,
    decreases forest,
{
    if forest.len() > 0 {
        let prefix = forest.drop_last();
        lemma_search_indep(prefix, a, b, id, path);
        lemma_first_place_append(group_places(prefix, a), group_part(forest.last(), a), id);
        lemma_first_place_append(group_places(prefix, b), group_part(forest.last(), b), id);
        lemma_first_project_append(
            project_places(prefix, a),
            project_part(forest.last(), a),
            path,
        );
        lemma_first_project_append(
            project_places(prefix, b),
            project_part(forest.last(), b),
            path,
        );
        match forest.last() {
            NodeModel::Group(g) => {
                lemma_search_indep(g.children, a.push(g), b.push(g), id, path);
                lemma_group_part_first(g, a, id);
                lemma_group_part_first(g, b, id);
            },
            NodeModel::Project(q) => {
                lemma_first_project_single(ProjectPlace { path: q, above: a }, path);
                lemma_first_project_single(ProjectPlace { path: q, above: b }, path);
                assert(group_part(forest.last(), a) =~= Seq::<GroupPlace>::empty());
                assert(group_part(forest.last(), b) =~= Seq::<GroupPlace>::empty());
            },
        }
    }
}

/// Whether a node is a group with identifier `id` or holds one.
pub open spec fn holds_group(node: NodeModel, id: u32) -> bool {
    match node {
        NodeModel::Group(g) => g.id == id || find_group(g.children, id) is Some,
        NodeModel::Project(_) => false,
    }
}

/// Whether a node is a project at `path` or a group that holds one.
pub open spec fn holds_project(node: NodeModel, path: Seq<u8>) -> bool {
    match node {
        NodeModel::Group(g) => contains_project(g.children, path),
        NodeModel::Project(p) => same_path(p, path),
    }
}

/// A forest holds a group or project exactly when one of its nodes does.
pub proof fn lemma_holds_step(forest: Seq<NodeModel>, id: u32, path: Seq<u8>)
    requires
        forest.len() > 0,
    ensures
        (find_group(forest, id) is Some) == (find_group(forest.drop_last(), id) is Some
            || holds_group(forest.last(), id)),
        contains_project(forest, path) == (contains_project(forest.drop_last(), path)
            || holds_project(forest.last(), path)),
{
    let prefix = forest.drop_last();
    let e = Seq::<GroupModel>::empty();
    lemma_first_place_append(group_places(prefix, e), group_part(forest.last(), e), id);
    lemma_first_project_append(project_places(prefix, e), project_part(forest.last(), e), path);
    match forest.last() {
        NodeModel::Group(g) => {
            lemma_group_part_first(g, e, id);
            lemma_search_indep(g.children, e.push(g), e, id, path);
        },
        NodeModel::Project(q) => {
            lemma_first_project_single(ProjectPlace { path: q, above: e }, path);
            assert(group_part(forest.last(), e) =~= Seq::<GroupPlace>::empty());
        },
    }
}


/// `k` is the first index of `forest` whose node satisfies `pred`.
pub open spec fn is_first(forest: Seq<NodeModel>, pred: spec_fn(NodeModel) -> bool, k: int) -> bool {
    &&& 0 <= k < forest.len()
    &&& pred(forest[k])
    &&& forall|j: int| 0 <= j < k ==> !pred(#[trigger] forest[j])
}

pub open spec fn has_first(forest: Seq<NodeModel>, pred: spec_fn(NodeModel) -> bool) -> bool {
    exists|k: int| is_first(forest, pred, k)
}

pub open spec fn first_index(forest: Seq<NodeModel>, pred: spec_fn(NodeModel) -> bool) -> int {
    choose|k: int| is_first(forest, pred, k)
}

pub proof fn lemma_first_index(forest: Seq<NodeModel>, pred: spec_fn(NodeModel) -> bool, k: int)
    requires
        is_first(forest, pred, k),
    ensures
        has_first(forest, pred),
        first_index(forest, pred) == k,
{
    let j = first_index(forest, pred);
    assert(is_first(forest, pred, j));
    if j < k {
        assert(!pred(forest[j]));
    }
    if k < j {
        assert(!pred(forest[k]));
    }
}

pub proof fn lemma_no_first(forest: Seq<NodeModel>, pred: spec_fn(NodeModel) -> bool)
    requires
        forall|k: int| 0 <= k < forest.len() ==> !pred(#[trigger] forest[k]),
    ensures
        !has_first(forest, pred),
{
    if has_first(forest, pred) {
        let k = choose|k: int| is_first(forest, pred, k);
        assert(pred(forest[k]));
    }
}

/// A change a group receives in place.
pub enum GroupEdit {
    Rename(Seq<char>),
    Collapse(bool),
    Append(NodeModel),
}

pub open spec fn apply_edit(g: GroupModel, edit: GroupEdit) -> GroupModel {
    match edit {
        GroupEdit::Rename(name) => GroupModel { name: name, ..g },
        GroupEdit::Collapse(collapsed) => GroupModel { collapsed: collapsed, ..g },
        GroupEdit::Append(node) => GroupModel { children: g.children.push(node), ..g },
    }
}

/// The nodes that are or hold the group `id`.
pub open spec fn group_holder(id: u32) -> spec_fn(NodeModel) -> bool {
    |n: NodeModel| holds_group(n, id)
}

/// The direct project nodes at `path`.
pub open spec fn project_at(path: Seq<u8>) -> spec_fn(NodeModel) -> bool {
    |n: NodeModel| is_project_at(n, path)
}

/// The group nodes that hold a project at `path` inside them.
pub open spec fn project_holder_below(path: Seq<u8>) -> spec_fn(NodeModel) -> bool {
    |n: NodeModel| holds_project_below(n, path)
}

/// The direct group nodes with identifier `id`.
pub open spec fn group_with(id: u32) -> spec_fn(NodeModel) -> bool {
    |n: NodeModel| is_group_with(n, id)
}

/// The group nodes that hold the group `id` inside them.
pub open spec fn group_holder_below(id: u32) -> spec_fn(NodeModel) -> bool {
    |n: NodeModel| holds_group_below(n, id)
}

/// Apply `edit` to the group with identifier `id` that a depth-first search
/// meets first; the forest is unchanged when there is none.
pub open spec fn edit_forest(forest: Seq<NodeModel>, id: u32, edit: GroupEdit) -> Seq<NodeModel>
    decreases forest,
{
    let pred = group_holder(id);
    if has_first(forest, pred) {
        let k = first_index(forest, pred);
        forest.update(k, edit_node(forest[k], id, edit))
    } else {
        forest
    }
}

pub open spec fn edit_node(node: NodeModel, id: u32, edit: GroupEdit) -> NodeModel
    decreases node,
{
    match node {
        NodeModel::Group(g) => if g.id == id {
            NodeModel::Group(apply_edit(g, edit))
        } else {
            NodeModel::Group(GroupModel { children: edit_forest(g.children, id, edit), ..g })
        },
        NodeModel::Project(_) => node,
    }
}

pub open spec fn is_project_at(node: NodeModel, path: Seq<u8>) -> bool {
    node matches NodeModel::Project(p) && same_path(p, path)
}

pub open spec fn is_group_with(node: NodeModel, id: u32) -> bool {
    node matches NodeModel::Group(g) && g.id == id
}

pub open spec fn holds_project_below(node: NodeModel, path: Seq<u8>) -> bool {
    node matches NodeModel::Group(g) && contains_project(g.children, path)
}

pub open spec fn holds_group_below(node: NodeModel, id: u32) -> bool {
    node matches NodeModel::Group(g) && find_group(g.children, id) is Some
}

/// Take a project out of the forest: a matching project among the direct
/// nodes first, otherwise from inside the first group that holds one.
/// Returns the forest without it and the path as it was stored.
pub open spec fn detach_project(forest: Seq<NodeModel>, path: Seq<u8>) -> Option<
    (Seq<NodeModel>, Seq<u8>),
>
    decreases forest,
{
    let direct = project_at(path);
    let below = project_holder_below(path);
    if has_first(forest, direct) {
        let k = first_index(forest, direct);
        Some((forest.remove(k), forest[k]->Project_0))
    } else if has_first(forest, below) {
        let k = first_index(forest, below);
        let g = forest[k]->Group_0;
        match detach_project(g.children, path) {
            Some((children, found)) => Some(
                (forest.update(k, NodeModel::Group(GroupModel { children: children, ..g })), found),
            ),
            None => None,
        }
    } else {
        None
    }
}

/// Take a group, with everything inside it, out of the forest: a matching
/// group among the direct nodes first, otherwise from inside the first group
/// that holds one.
pub open spec fn detach_group(forest: Seq<NodeModel>, id: u32) -> Option<
    (Seq<NodeModel>, GroupModel),
>
    decreases forest,
{
    let direct = group_with(id);
    let below = group_holder_below(id);
    if has_first(forest, direct) {
        let k = first_index(forest, direct);
        Some((forest.remove(k), forest[k]->Group_0))
    } else if has_first(forest, below) {
        let k = first_index(forest, below);
        let g = forest[k]->Group_0;
        match detach_group(g.children, id) {
            Some((children, found)) => Some(
                (forest.update(k, NodeModel::Group(GroupModel { children: children, ..g })), found),
            ),
            None => None,
        }
    } else {
        None
    }
}

/// Remove a group but keep what it held: its nodes take its place, in order.
pub open spec fn remove_group(forest: Seq<NodeModel>, id: u32) -> Option<Seq<NodeModel>>
    decreases forest,
{
    let direct = group_with(id);
    let below = group_holder_below(id);
    if has_first(forest, direct) {
        let k = first_index(forest, direct);
        Some(forest.take(k) + forest[k]->Group_0.children + forest.skip(k + 1))
    } else if has_first(forest, below) {
        let k = first_index(forest, below);
        let g = forest[k]->Group_0;
        match remove_group(g.children, id) {
            Some(children) => Some(
                forest.update(k, NodeModel::Group(GroupModel { children: children, ..g })),
            ),
            None => None,
        }
    } else {
        None
    }
}


/// A forest holds a group, or a project, exactly when one of its nodes does.
pub proof fn lemma_holds_iff(forest: Seq<NodeModel>, id: u32, path: Seq<u8>)
    ensures
        (find_group(forest, id) is Some) == exists|k: int|
            0 <= k < forest.len() && holds_group(#[trigger] forest[k], id),
        contains_project(forest, path) == exists|k: int|
            0 <= k < forest.len() && holds_project(#[trigger] forest[k], path),
    decreases forest.len(),
{
    if forest.len() == 0 {
        assert(group_places(forest, seq![]) =~= Seq::<GroupPlace>::empty());
        assert(project_places(forest, seq![]) =~= Seq::<ProjectPlace>::empty());
    } else {
        let prefix = forest.drop_last();
        lemma_holds_iff(prefix, id, path);
        lemma_holds_step(forest, id, path);
        if exists|k: int| 0 <= k < prefix.len() && holds_group(#[trigger] prefix[k], id) {
            let k = choose|k: int| 0 <= k < prefix.len() && holds_group(#[trigger] prefix[k], id);
            assert(forest[k] == prefix[k]);
        }
        if exists|k: int| 0 <= k < forest.len() && holds_group(#[trigger] forest[k], id) {
            let k = choose|k: int| 0 <= k < forest.len() && holds_group(#[trigger] forest[k], id);
            if k < prefix.len() {
                assert(forest[k] == prefix[k]);
            }
        }
        if exists|k: int| 0 <= k < prefix.len() && holds_project(#[trigger] prefix[k], path) {
            let k = choose|k: int|
                0 <= k < prefix.len() && holds_project(#[trigger] prefix[k], path);
            assert(forest[k] == prefix[k]);
        }
        if exists|k: int| 0 <= k < forest.len() && holds_project(#[trigger] forest[k], path) {
            let k = choose|k: int|
                0 <= k < forest.len() && holds_project(#[trigger] forest[k], path);
            if k < prefix.len() {
                assert(forest[k] == prefix[k]);
            }
        }
    }
}


/// Some node satisfies `pred`, so a first one does.
pub proof fn lemma_least(forest: Seq<NodeModel>, pred: spec_fn(NodeModel) -> bool, k: int)
    requires
        0 <= k < forest.len(),
        pred(forest[k]),
    ensures
        has_first(forest, pred),
    decreases k,
{
    if exists|j: int| 0 <= j < k && pred(#[trigger] forest[j]) {
        let j = choose|j: int| 0 <= j < k && pred(#[trigger] forest[j]);
        lemma_least(forest, pred, j);
    } else {
        assert(is_first(forest, pred, k));
    }
}

/// Without a first node satisfying `pred`, no node satisfies it.
pub proof fn lemma_none_satisfy(forest: Seq<NodeModel>, pred: spec_fn(NodeModel) -> bool)
    requires
        !has_first(forest, pred),
    ensures
        forall|k: int| 0 <= k < forest.len() ==> !pred(#[trigger] forest[k]),
{
    assert forall|k: int| 0 <= k < forest.len() implies !pred(#[trigger] forest[k]) by {
        if pred(forest[k]) {
            lemma_least(forest, pred, k);
        }
    }
}

/// Taking out, or removing, succeeds exactly when the forest holds the
/// project or group.
pub proof fn lemma_detach_succeeds(forest: Seq<NodeModel>, path: Seq<u8>, id: u32)
    ensures
        (detach_project(forest, path) is Some) == contains_project(forest, path),
        (detach_group(forest, id) is Some) == (find_group(forest, id) is Some),
        (remove_group(forest, id) is Some) == (find_group(forest, id) is Some),
    decreases forest,
{
    lemma_holds_iff(forest, id, path);
    let pd = project_at(path);
    let pb = project_holder_below(path);
    let gd = group_with(id);
    let gb = group_holder_below(id);
    if has_first(forest, pd) {
        let k = first_index(forest, pd);
        assert(holds_project(forest[k], path));
    } else if has_first(forest, pb) {
        let k = first_index(forest, pb);
        let g = forest[k]->Group_0;
        lemma_detach_succeeds(g.children, path, id);
        assert(holds_project(forest[k], path));
    } else {
        lemma_none_satisfy(forest, pd);
        lemma_none_satisfy(forest, pb);
        assert forall|k: int| 0 <= k < forest.len() implies !holds_project(
            #[trigger] forest[k],
            path,
        ) by {
            assert(!pd(forest[k]));
            assert(!pb(forest[k]));
        }
    }
    if has_first(forest, gd) {
        let k = first_index(forest, gd);
        assert(holds_group(forest[k], id));
    } else if has_first(forest, gb) {
        let k = first_index(forest, gb);
        let g = forest[k]->Group_0;
        lemma_detach_succeeds(g.children, path, id);
        assert(holds_group(forest[k], id));
    } else {
        lemma_none_satisfy(forest, gd);
        lemma_none_satisfy(forest, gb);
        assert forall|k: int| 0 <= k < forest.len() implies !holds_group(#[trigger] forest[k], id) by {
            assert(!gd(forest[k]));
            assert(!gb(forest[k]));
        }
    }
}


pub open spec fn empty_group_name_message() -> Seq<char> {
    "Enter a name for this group."@
}

pub open spec fn long_group_name_message() -> Seq<char> {
    "Use a group name of at most 128 bytes."@
}

pub open spec fn group_limit_message() -> Seq<char> {
    "Up to 64 groups can be saved. Remove a group before adding another."@
}

pub open spec fn missing_group_message() -> Seq<char> {
    "That group is no longer in the project list."@
}

pub open spec fn missing_project_message() -> Seq<char> {
    "That project is no longer in the project list."@
}

pub open spec fn depth_limit_message() -> Seq<char> {
    "Groups can nest up to 5 levels deep."@
}

pub open spec fn same_group_message() -> Seq<char> {
    "Choose a different group."@
}

pub open spec fn own_descendant_message() -> Seq<char> {
    "A group cannot move inside one of its own groups."@
}

/// Why a group name cannot be used, or `None` when its trimmed text can.
/// Groups and projects share one text rule, so the pane can present either
/// label on a single line.
pub open spec fn group_name_refusal(name: Seq<char>) -> Option<Seq<char>> {
    let t = trim(name);
    if t.len() == 0 {
        Some(empty_group_name_message())
    } else if utf8_len(t) > 128 {
        Some(long_group_name_message())
    } else {
        project_name_refusal(t)
    }
}

/// Put a node into the group `into`, or at the end of the top level when
/// `into` is `None` or names no group.
pub open spec fn attach(forest: Seq<NodeModel>, node: NodeModel, into: Option<u32>) -> Seq<
    NodeModel,
> {
    match into {
        Some(id) => if find_group(forest, id) is Some {
            edit_forest(forest, id, GroupEdit::Append(node))
        } else {
            forest.push(node)
        },
        None => forest.push(node),
    }
}

/// The result of creating a group named `name` under `parent`: its
/// identifier and the new list, or why it was refused.
pub open spec fn create_group(forest: Seq<NodeModel>, parent: Option<u32>, name: Seq<char>) -> Result<
    (u32, Seq<NodeModel>),
    Seq<char>,
> {
    if group_name_refusal(name) is Some {
        Err(group_name_refusal(name)->0)
    } else if count_groups(forest) >= 64 {
        Err(group_limit_message())
    } else if parent is Some && depth_of(forest, parent->0) is None {
        Err(missing_group_message())
    } else if (match parent {
        Some(p) => depth_of(forest, p)->0,
        None => 0,
    }) + 1 > 5 {
        Err(depth_limit_message())
    } else {
        let id = next_group_id(forest);
        let group = NodeModel::Group(
            GroupModel { id: id, name: trim(name), collapsed: false, children: seq![] },
        );
        Ok((id, attach(forest, group, parent)))
    }
}

pub open spec fn rename_group(forest: Seq<NodeModel>, id: u32, name: Seq<char>) -> Result<
    Seq<NodeModel>,
    Seq<char>,
> {
    if group_name_refusal(name) is Some {
        Err(group_name_refusal(name)->0)
    } else if find_group(forest, id) is None {
        Err(missing_group_message())
    } else {
        Ok(edit_forest(forest, id, GroupEdit::Rename(trim(name))))
    }
}

/// Whether the collapse state changes, and the list after the request.
pub open spec fn set_collapsed(forest: Seq<NodeModel>, id: u32, collapsed: bool) -> (bool, Seq<
    NodeModel,
>) {
    match find_group(forest, id) {
        Some(place) => if place.group.collapsed != collapsed {
            (true, edit_forest(forest, id, GroupEdit::Collapse(collapsed)))
        } else {
            (false, forest)
        },
        None => (false, forest),
    }
}

pub open spec fn move_project(forest: Seq<NodeModel>, path: Seq<u8>, into: Option<u32>) -> Result<
    Seq<NodeModel>,
    Seq<char>,
> {
    if into is Some && depth_of(forest, into->0) is None {
        Err(missing_group_message())
    } else {
        match detach_project(forest, path) {
            Some((rest, found)) => Ok(attach(rest, NodeModel::Project(found), into)),
            None => Err(missing_project_message()),
        }
    }
}

pub open spec fn move_group(forest: Seq<NodeModel>, id: u32, into: Option<u32>) -> Result<
    Seq<NodeModel>,
    Seq<char>,
> {
    if into == Some(id) {
        Err(same_group_message())
    } else if into is Some && group_contains(forest, id, into->0) {
        Err(own_descendant_message())
    } else if into is Some && depth_of(forest, into->0) is None {
        Err(missing_group_message())
    } else if group_height(forest, id) is None {
        Err(missing_group_message())
    } else if (match into {
        Some(t) => depth_of(forest, t)->0,
        None => 0,
    }) + group_height(forest, id)->0 > 5 {
        Err(depth_limit_message())
    } else {
        match detach_group(forest, id) {
            Some((rest, found)) => Ok(attach(rest, NodeModel::Group(found), into)),
            None => Err(missing_group_message()),
        }
    }
}


/// The project nodes of a forest's top level.
pub open spec fn top_project() -> spec_fn(NodeModel) -> bool {
    |n: NodeModel| n is Project
}

/// Removing a top-level project keeps every group and loses one project.
pub proof fn lemma_remove_top_project(forest: Seq<NodeModel>, k: int, above: Seq<GroupModel>)
    requires
        0 <= k < forest.len(),
        forest[k] is Project,
    ensures
        group_places(forest.remove(k), above) == group_places(forest, above),
        project_places(forest.remove(k), above).len() + 1 == project_places(forest, above).len(),
{
    let a = forest.take(k);
    let b = forest.skip(k + 1);
    let one = seq![forest[k]];
    assert(forest =~= a + one + b);
    assert(forest.remove(k) =~= a + b);
    lemma_group_places_append(a + one, b, above);
    lemma_group_places_append(a, one, above);
    lemma_group_places_append(a, b, above);
    lemma_project_places_append(a + one, b, above);
    lemma_project_places_append(a, one, above);
    lemma_project_places_append(a, b, above);
    assert(one.drop_last() =~= Seq::<NodeModel>::empty());
    assert(one.last() == forest[k]);
    assert(group_places(Seq::<NodeModel>::empty(), above) =~= Seq::<GroupPlace>::empty());
    assert(project_places(Seq::<NodeModel>::empty(), above) =~= Seq::<ProjectPlace>::empty());
    assert(group_part(forest[k], above) =~= Seq::<GroupPlace>::empty());
    assert(project_part(forest[k], above).len() == 1);
    assert(group_places(one, above) =~= Seq::<GroupPlace>::empty());
    assert(group_places(a, above) + Seq::<GroupPlace>::empty() =~= group_places(a, above));
    assert(project_places(one, above).len() == 1);
}

/// Make room for one more project by dropping the oldest ungrouped projects,
/// one at a time, while the list is full. Grouped projects stay; when the
/// top level runs out of projects first, the attempt fails with the
/// removals already made.
pub open spec fn make_room(forest: Seq<NodeModel>) -> (bool, Seq<NodeModel>)
    decreases count_projects(forest),
{
    if count_projects(forest) < 256 {
        (true, forest)
    } else if has_first(forest, top_project()) {
        let k = first_index(forest, top_project());
        proof {
            lemma_remove_top_project(forest, k, seq![]);
        }
        make_room(forest.remove(k))
    } else {
        (false, forest)
    }
}

/// Add a project the user opened at the end of the top level, because the
/// application cannot know which group it belongs to. A relative path, or
/// one already in the list, is refused and changes nothing.
pub open spec fn remember(forest: Seq<NodeModel>, path: Seq<u8>) -> (bool, Seq<NodeModel>) {
    if !is_absolute(path) || contains_project(forest, path) {
        (false, forest)
    } else {
        let (room, after) = make_room(forest);
        if room {
            (true, after.push(NodeModel::Project(path)))
        } else {
            (false, after)
        }
    }
}

pub open spec fn relative_path_message() -> Seq<char> {
    "A saved project path must be absolute."@
}

pub open spec fn saved_group_limit_message() -> Seq<char> {
    "Up to 64 groups can be saved."@
}

pub open spec fn saved_project_limit_message() -> Seq<char> {
    "Up to 256 projects can be saved."@
}

pub open spec fn shared_identifier_message() -> Seq<char> {
    "Two groups share an identifier."@
}

pub open spec fn repeated_project_message() -> Seq<char> {
    "A project appears twice in the project list."@
}

/// The first thing, in saved order, that a stored list cannot present: a
/// group nested too deep, an unusable group name, or a relative path.
pub open spec fn first_problem(forest: Seq<NodeModel>, depth: nat) -> Option<Seq<char>>
    decreases forest,
{
    if forest.len() == 0 {
        None
    } else {
        match first_problem(forest.drop_last(), depth) {
            Some(problem) => Some(problem),
            None => node_problem(forest.last(), depth),
        }
    }
}

pub open spec fn node_problem(node: NodeModel, depth: nat) -> Option<Seq<char>>
    decreases node,
{
    match node {
        NodeModel::Group(g) => if depth + 1 > 5 {
            Some(depth_limit_message())
        } else if group_name_refusal(g.name) is Some {
            group_name_refusal(g.name)
        } else {
            first_problem(g.children, depth + 1)
        },
        NodeModel::Project(p) => if !is_absolute(p) {
            Some(relative_path_message())
        } else {
            None
        },
    }
}

pub open spec fn group_ids(forest: Seq<NodeModel>) -> Seq<u32> {
    group_places(forest, seq![]).map_values(|p: GroupPlace| p.group.id)
}

pub open spec fn unique_ids(ids: Seq<u32>) -> bool {
    forall|i: int, j: int| 0 <= i < j < ids.len() ==> ids[i] != ids[j]
}

pub open spec fn unique_paths(paths: Seq<Seq<u8>>) -> bool {
    forall|i: int, j: int| 0 <= i < j < paths.len() ==> !same_path(paths[i], paths[j])
}

/// Why a stored list would not be presented faithfully, or `None` when it
/// can be: the first problem in saved order, then the bounds, then a shared
/// group identifier, then a project listed twice.
pub open spec fn validation_error(forest: Seq<NodeModel>) -> Option<Seq<char>> {
    if first_problem(forest, 0) is Some {
        first_problem(forest, 0)
    } else if count_groups(forest) > 64 {
        Some(saved_group_limit_message())
    } else if count_projects(forest) > 256 {
        Some(saved_project_limit_message())
    } else if !unique_ids(group_ids(forest)) {
        Some(shared_identifier_message())
    } else if !unique_paths(project_paths(forest)) {
        Some(repeated_project_message())
    } else {
        None
    }
}


pub proof fn lemma_first_problem_append(a: Seq<NodeModel>, b: Seq<NodeModel>, depth: nat)
    ensures
        first_problem(a + b, depth) == match first_problem(a, depth) {
            Some(problem) => Some(problem),
            None => first_problem(b, depth),
        },
    decreases b.len(),
{
    if b.len() == 0 {
        assert(a + b =~= a);
    } else {
        lemma_first_problem_append(a, b.drop_last(), depth);
        assert((a + b).drop_last() =~= a + b.drop_last());
    }
}


/// The sort key of a display name: the bytes of its lowercase text.
pub open spec fn name_key(name: Seq<char>) -> Seq<u8> {
    vstd::utf8::encode_utf8(lowercase(name))
}

/// The group nodes of one level, keyed by name, with their positions.
pub open spec fn group_keys(forest: Seq<NodeModel>) -> Seq<(Seq<u8>, int)>
    decreases forest.len(),
{
    if forest.len() == 0 {
        seq![]
    } else {
        group_keys(forest.drop_last()) + match forest.last() {
            NodeModel::Group(g) => seq![(name_key(g.name), forest.len() - 1)],
            NodeModel::Project(_) => seq![],
        }
    }
}

/// The project nodes of one level, keyed by the display name the caller
/// gives each project, with their positions. `names` holds one name per
/// project of the whole list in saved order; this level's projects start at
/// `base`.
pub open spec fn project_keys(forest: Seq<NodeModel>, names: Seq<Seq<char>>, base: nat) -> Seq<
    (Seq<u8>, int),
>
    decreases forest.len(),
{
    if forest.len() == 0 {
        seq![]
    } else {
        project_keys(forest.drop_last(), names, base) + match forest.last() {
            NodeModel::Project(_) => seq![
                (name_key(names[(base + count_projects(forest.drop_last())) as int]), forest.len() - 1),
            ],
            NodeModel::Group(_) => seq![],
        }
    }
}

/// The pane's rows: at each level the groups sorted by name, each followed
/// by its own rows unless collapsed, then the projects sorted by display
/// name; both case-insensitively, with saved order breaking ties.
pub open spec fn sorted_rows(
    forest: Seq<NodeModel>,
    depth: nat,
    parent: Option<u32>,
    names: Seq<Seq<char>>,
    base: nat,
) -> Seq<RowModel>
    decreases forest, 1nat, 0nat,
{
    sorted_group_rows(forest, sort_entries(group_keys(forest)), depth, names, base)
        + sorted_project_rows(forest, sort_entries(project_keys(forest, names, base)), depth, parent)
}

pub open spec fn sorted_group_rows(
    forest: Seq<NodeModel>,
    order: Seq<(Seq<u8>, int)>,
    depth: nat,
    names: Seq<Seq<char>>,
    base: nat,
) -> Seq<RowModel>
    decreases forest, 0nat, order.len(),
{
    if order.len() == 0 {
        seq![]
    } else {
        let k = order.last().1;
        sorted_group_rows(forest, order.drop_last(), depth, names, base) + if 0 <= k < forest.len()
            && forest[k] is Group {
            let g = forest[k]->Group_0;
            seq![
                RowModel::Group {
                    id: g.id,
                    name: g.name,
                    depth: depth,
                    collapsed: g.collapsed,
                    projects: count_projects(g.children),
                },
            ] + if g.collapsed {
                Seq::<RowModel>::empty()
            } else {
                sorted_rows(
                    g.children,
                    depth + 1,
                    Some(g.id),
                    names,
                    base + count_projects(forest.take(k)),
                )
            }
        } else {
            Seq::<RowModel>::empty()
        }
    }
}

pub open spec fn sorted_project_rows(
    forest: Seq<NodeModel>,
    order: Seq<(Seq<u8>, int)>,
    depth: nat,
    parent: Option<u32>,
) -> Seq<RowModel>
    decreases order.len(),
{
    if order.len() == 0 {
        seq![]
    } else {
        let k = order.last().1;
        sorted_project_rows(forest, order.drop_last(), depth, parent) + if 0 <= k < forest.len()
            && forest[k] is Project {
            seq![RowModel::Project { path: forest[k]->Project_0, depth: depth, parent: parent }]
        } else {
            Seq::<RowModel>::empty()
        }
    }
}

/// Every group in the pane's order, with its depth.
pub open spec fn sorted_group_entries(forest: Seq<NodeModel>, depth: nat) -> Seq<GroupEntryModel>
    decreases forest, 1nat, 0nat,
{
    sorted_group_entries_in(forest, sort_entries(group_keys(forest)), depth)
}

pub open spec fn sorted_group_entries_in(
    forest: Seq<NodeModel>,
    order: Seq<(Seq<u8>, int)>,
    depth: nat,
) -> Seq<GroupEntryModel>
    decreases forest, 0nat, order.len(),
{
    if order.len() == 0 {
        seq![]
    } else {
        let k = order.last().1;
        sorted_group_entries_in(forest, order.drop_last(), depth) + if 0 <= k < forest.len()
            && forest[k] is Group {
            let g = forest[k]->Group_0;
            seq![GroupEntryModel { id: g.id, name: g.name, depth: depth }] + sorted_group_entries(
                g.children,
                depth + 1,
            )
        } else {
            Seq::<GroupEntryModel>::empty()
        }
    }
}

} // verus!
