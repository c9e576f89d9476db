//! What the project list keeps across its operations: the laws that hold of
//! every list, stated over the model that the operations' contracts use.

use vstd::prelude::*;
use crate::library_model::{
    count_groups, count_projects, contains_project, first_project, group_part, group_places,
    lemma_first_project_append, lemma_first_project_single, lemma_group_places_append,
    lemma_places_len, lemma_project_places_append, lemma_remove_top_project, make_room,
    project_part, project_paths, project_places, remember, top_project, first_index, has_first,
    is_first, GroupModel, GroupPlace, NodeModel, ProjectPlace, remove_group, group_with,
    group_holder_below, detach_project, detach_group, attach, edit_forest, edit_node, GroupEdit,
    apply_edit, group_holder, project_at, project_holder_below, find_group, holds_group,
    lemma_holds_iff, lemma_least, move_project, move_group, first_place, lemma_first_place_append,
    lemma_group_part_first, lemma_search_indep, set_collapsed, rename_group, forest_height,
    node_height, depth_of, create_group, next_group_id, group_ids, unique_ids,
};
use crate::text::trim;
use crate::paths::{is_absolute, lemma_same_path_is_equivalence};
use vstd::multiset::Multiset;

verus! {

/// The paths of the projects of a forest, in saved order, whatever encloses it.
pub open spec fn paths_in(forest: Seq<NodeModel>, above: Seq<GroupModel>) -> Seq<Seq<u8>> {
    project_places(forest, above).map_values(|p: ProjectPlace| p.path)
}

proof fn lemma_paths_concat(a: Seq<ProjectPlace>, b: Seq<ProjectPlace>)
    ensures
        (a + b).map_values(|p: ProjectPlace| p.path) == a.map_values(|p: ProjectPlace| p.path)
            + b.map_values(|p: ProjectPlace| p.path),
{
    assert((a + b).map_values(|p: ProjectPlace| p.path) =~= a.map_values(|p: ProjectPlace| p.path)
        + b.map_values(|p: ProjectPlace| p.path));
}

/// Which paths a forest holds, and in which order, does not depend on what
/// encloses it.
proof fn lemma_paths_indep(forest: Seq<NodeModel>, a: Seq<GroupModel>, b: Seq<GroupModel>)
    ensures
        paths_in(forest, a) == paths_in(forest, b),
    decreases forest,
{
    if forest.len() == 0 {
        assert(paths_in(forest, a) =~= paths_in(forest, b));
    } else {
        let prefix = forest.drop_last();
        lemma_paths_indep(prefix, a, b);
        lemma_paths_concat(project_places(prefix, a), project_part(forest.last(), a));
        lemma_paths_concat(project_places(prefix, b), project_part(forest.last(), b));
        match forest.last() {
            NodeModel::Group(g) => {
                lemma_paths_indep(g.children, a.push(g), b.push(g));
            },
            NodeModel::Project(p) => {
                assert(project_part(forest.last(), a).map_values(|q: ProjectPlace| q.path)
                    =~= seq![p]);
                assert(project_part(forest.last(), b).map_values(|q: ProjectPlace| q.path)
                    =~= seq![p]);
            },
        }
    }
}

/// The places of a forest split around one of its nodes.
pub proof fn lemma_split_at(forest: Seq<NodeModel>, k: int, above: Seq<GroupModel>)
    requires
        0 <= k < forest.len(),
    ensures
        forest == forest.take(k) + seq![forest[k]] + forest.skip(k + 1),
        group_places(forest, above) == group_places(forest.take(k), above) + group_part(
            forest[k],
            above,
        ) + group_places(forest.skip(k + 1), above),
        project_places(forest, above) == project_places(forest.take(k), above) + project_part(
            forest[k],
            above,
        ) + project_places(forest.skip(k + 1), above),
{
    let a = forest.take(k);
    let one = seq![forest[k]];
    let b = forest.skip(k + 1);
    assert(forest =~= a + one + b);
    lemma_group_places_append(a + one, b, above);
    lemma_group_places_append(a, one, above);
    lemma_project_places_append(a + one, b, above);
    lemma_project_places_append(a, one, above);
    assert(one.drop_last() =~= Seq::<NodeModel>::empty());
    assert(one.last() == forest[k]);
    assert(group_places(Seq::<NodeModel>::empty(), above) =~= Seq::<GroupPlace>::empty());
    assert(project_places(Seq::<NodeModel>::empty(), above) =~= Seq::<ProjectPlace>::empty());
    assert(group_places(one, above) =~= group_part(forest[k], above));
    assert(project_places(one, above) =~= project_part(forest[k], above));
}

/// Dropping one ungrouped project keeps every project inside a group.
proof fn lemma_remove_top_keeps_grouped(forest: Seq<NodeModel>, k: int)
    requires
        0 <= k < forest.len(),
        forest[k] is Project,
    ensures
        forall|x: ProjectPlace|
            #![trigger project_places(forest, seq![]).contains(x)]
            project_places(forest, seq![]).contains(x) && x.above.len() > 0
                ==> project_places(forest.remove(k), seq![]).contains(x),
{
    let e = Seq::<GroupModel>::empty();
    let a = forest.take(k);
    let b = forest.skip(k + 1);
    lemma_split_at(forest, k, e);
    assert(forest.remove(k) =~= a + b);
    lemma_project_places_append(a, b, e);
    let pa = project_places(a, e);
    let pb = project_places(b, e);
    let mid = project_part(forest[k], e);
    assert(mid.len() == 1 && mid[0].above.len() == 0);
    assert forall|x: ProjectPlace|
        #![trigger project_places(forest, seq![]).contains(x)]
        project_places(forest, seq![]).contains(x) && x.above.len() > 0 implies project_places(
        forest.remove(k),
        seq![],
    ).contains(x) by {
        let all = project_places(forest, e);
        assert(all == pa + mid + pb);
        let i = choose|i: int| 0 <= i < all.len() && all[i] == x;
        if i < pa.len() {
            assert((pa + pb)[i] == x);
        } else if i == pa.len() {
            assert(all[i] == mid[0]);
        } else {
            assert(all[i] == pb[i - pa.len() - 1]);
            assert((pa + pb)[i - 1] == x);
        }
    }
}

/// What making room keeps: every group and every grouped project, and no
/// project comes in; on success the list is below its bound.
proof fn lemma_make_room(forest: Seq<NodeModel>)
    ensures
        group_places(make_room(forest).1, seq![]) == group_places(forest, seq![]),
        count_projects(make_room(forest).1) <= count_projects(forest),
        make_room(forest).0 ==> count_projects(make_room(forest).1) < 256,
        forall|x: ProjectPlace|
            #![trigger project_places(forest, seq![]).contains(x)]
            project_places(forest, seq![]).contains(x) && x.above.len() > 0
                ==> project_places(make_room(forest).1, seq![]).contains(x),
    decreases count_projects(forest),
{
    if count_projects(forest) >= 256 && has_first(forest, top_project()) {
        let k = first_index(forest, top_project());
        assert(is_first(forest, top_project(), k));
        lemma_remove_top_project(forest, k, seq![]);
        lemma_remove_top_keeps_grouped(forest, k);
        lemma_make_room(forest.remove(k));
    }
}

/// Remembering a project twice changes nothing the second time, and only an
/// absolute path is remembered: a successful call leaves the path in the
/// list, and a relative path leaves the list as it was.
pub proof fn law_remember_is_idempotent(forest: Seq<NodeModel>, path: Seq<u8>)
    ensures
        !is_absolute(path) ==> remember(forest, path) == (false, forest),
        remember(forest, path).0 ==> contains_project(remember(forest, path).1, path),
        remember(forest, path).0 ==> remember(remember(forest, path).1, path) == (
            false,
            remember(forest, path).1,
        ),
{
    if remember(forest, path).0 {
        let after = make_room(forest).1;
        let grown = after.push(NodeModel::Project(path));
        let e = Seq::<GroupModel>::empty();
        assert(grown.drop_last() =~= after);
        let place = ProjectPlace { path: path, above: e };
        assert(project_part(grown.last(), e) =~= seq![place]);
        lemma_first_project_append(project_places(after, e), seq![place], path);
        lemma_first_project_single(place, path);
        lemma_same_path_is_equivalence();
        assert(contains_project(grown, path));
    }
}

/// Remembering a project never touches a group or a project inside one: a
/// full list drops its oldest ungrouped projects only. A list within its
/// bound of projects stays within it.
pub proof fn law_remember_keeps_groups(forest: Seq<NodeModel>, path: Seq<u8>)
    ensures
        group_places(remember(forest, path).1, seq![]) == group_places(forest, seq![]),
        forall|x: ProjectPlace|
            #![trigger project_places(forest, seq![]).contains(x)]
            project_places(forest, seq![]).contains(x) && x.above.len() > 0
                ==> project_places(remember(forest, path).1, seq![]).contains(x),
        count_projects(forest) <= 256 ==> count_projects(remember(forest, path).1) <= 256,
{
    lemma_make_room(forest);
    if is_absolute(path) && !contains_project(forest, path) && make_room(forest).0 {
        let after = make_room(forest).1;
        let grown = after.push(NodeModel::Project(path));
        let e = Seq::<GroupModel>::empty();
        assert(grown.drop_last() =~= after);
        assert(group_part(grown.last(), e) =~= Seq::<GroupPlace>::empty());
        assert(group_places(grown, e) =~= group_places(after, e));
        let place = ProjectPlace { path: path, above: e };
        assert(project_part(grown.last(), e) =~= seq![place]);
        assert(project_places(grown, e) == project_places(after, e) + seq![place]);
        assert forall|x: ProjectPlace|
            #![trigger project_places(forest, seq![]).contains(x)]
            project_places(forest, seq![]).contains(x) && x.above.len() > 0 implies project_places(
            grown,
            seq![],
        ).contains(x) by {
            let i = choose|i: int|
                0 <= i < project_places(after, e).len() && project_places(after, e)[i] == x;
            assert(project_places(grown, e)[i] == x);
        }
    }
}

/// Removing a group keeps what it held in place: the projects of the list,
/// in saved order, are those it had, and exactly one group is gone.
pub proof fn law_remove_group_keeps_projects(forest: Seq<NodeModel>, id: u32)
    requires
        remove_group(forest, id) is Some,
    ensures
        project_paths(remove_group(forest, id)->0) == project_paths(forest),
        count_groups(remove_group(forest, id)->0) + 1 == count_groups(forest),
    decreases forest,
{
    let e = Seq::<GroupModel>::empty();
    let direct = group_with(id);
    let below = group_holder_below(id);
    let result = remove_group(forest, id)->0;
    if has_first(forest, direct) {
        let k = first_index(forest, direct);
        assert(is_first(forest, direct, k));
        let g = forest[k]->Group_0;
        let a = forest.take(k);
        let b = forest.skip(k + 1);
        lemma_split_at(forest, k, e);
        assert(result == a + g.children + b);
        lemma_group_places_append(a + g.children, b, e);
        lemma_group_places_append(a, g.children, e);
        lemma_project_places_append(a + g.children, b, e);
        lemma_project_places_append(a, g.children, e);
        lemma_places_len(g.children, e, e.push(g));
        lemma_paths_indep(g.children, e, e.push(g));
        let pa = project_places(a, e);
        let pb = project_places(b, e);
        lemma_paths_concat(pa + project_places(g.children, e), pb);
        lemma_paths_concat(pa, project_places(g.children, e));
        lemma_paths_concat(pa + project_part(forest[k], e), pb);
        lemma_paths_concat(pa, project_part(forest[k], e));
        assert(project_part(forest[k], e) == project_places(g.children, e.push(g)));
    } else {
        let k = first_index(forest, below);
        assert(is_first(forest, below, k));
        let g = forest[k]->Group_0;
        let children = remove_group(g.children, id)->0;
        let g2 = GroupModel { children: children, ..g };
        law_remove_group_keeps_projects(g.children, id);
        assert(result == forest.update(k, NodeModel::Group(g2)));
        let updated = forest.update(k, NodeModel::Group(g2));
        lemma_split_at(forest, k, e);
        lemma_split_at(updated, k, e);
        assert(updated.take(k) =~= forest.take(k));
        assert(updated.skip(k + 1) =~= forest.skip(k + 1));
        lemma_places_len(g.children, e, e.push(g));
        lemma_places_len(children, e, e.push(g2));
        lemma_paths_indep(g.children, e, e.push(g));
        lemma_paths_indep(children, e, e.push(g2));
        let pa = project_places(forest.take(k), e);
        let pb = project_places(forest.skip(k + 1), e);
        lemma_paths_concat(pa + project_part(forest[k], e), pb);
        lemma_paths_concat(pa, project_part(forest[k], e));
        lemma_paths_concat(pa + project_part(updated[k], e), pb);
        lemma_paths_concat(pa, project_part(updated[k], e));
        assert(project_part(forest[k], e) == project_places(g.children, e.push(g)));
        assert(project_part(updated[k], e) == project_places(children, e.push(g2)));
    }
}

/// The projects of a forest, as many times as each is listed.
pub open spec fn project_bag(forest: Seq<NodeModel>) -> Multiset<Seq<u8>> {
    paths_in(forest, seq![]).to_multiset()
}

/// A forest's projects and groups are those before a node, of the node, and
/// after it.
proof fn lemma_bag_split(forest: Seq<NodeModel>, k: int)
    requires
        0 <= k < forest.len(),
    ensures
        project_bag(forest) == project_bag(forest.take(k)).add(project_bag(seq![forest[k]])).add(
            project_bag(forest.skip(k + 1)),
        ),
        count_groups(forest) == count_groups(forest.take(k)) + count_groups(seq![forest[k]])
            + count_groups(forest.skip(k + 1)),
{
    broadcast use vstd::seq_lib::lemma_multiset_commutative;

    let e = Seq::<GroupModel>::empty();
    let a = forest.take(k);
    let one = seq![forest[k]];
    let b = forest.skip(k + 1);
    assert(forest =~= a + one + b);
    lemma_group_places_append(a + one, b, e);
    lemma_group_places_append(a, one, e);
    lemma_project_places_append(a + one, b, e);
    lemma_project_places_append(a, one, e);
    lemma_paths_concat(project_places(a, e) + project_places(one, e), project_places(b, e));
    lemma_paths_concat(project_places(a, e), project_places(one, e));
}

/// The projects and groups of a single node.
proof fn lemma_bag_node(node: NodeModel)
    ensures
        project_bag(seq![node]) == match node {
            NodeModel::Group(g) => project_bag(g.children),
            NodeModel::Project(p) => Multiset::<Seq<u8>>::empty().insert(p),
        },
        count_groups(seq![node]) == match node {
            NodeModel::Group(g) => 1 + count_groups(g.children),
            NodeModel::Project(_) => 0,
        },
{
    broadcast use vstd::seq_lib::group_to_multiset_ensures;

    let e = Seq::<GroupModel>::empty();
    let one = seq![node];
    assert(one.drop_last() =~= Seq::<NodeModel>::empty());
    assert(group_places(Seq::<NodeModel>::empty(), e) =~= Seq::<GroupPlace>::empty());
    assert(project_places(Seq::<NodeModel>::empty(), e) =~= Seq::<ProjectPlace>::empty());
    assert(group_places(one, e) =~= group_part(node, e));
    assert(project_places(one, e) =~= project_part(node, e));
    match node {
        NodeModel::Group(g) => {
            lemma_places_len(g.children, e, e.push(g));
            lemma_paths_indep(g.children, e, e.push(g));
        },
        NodeModel::Project(p) => {
            assert(paths_in(one, e) =~= seq![p]);
            assert(seq![p] =~= Seq::<Seq<u8>>::empty().push(p));
            assert(Seq::<Seq<u8>>::empty().to_multiset() =~= Multiset::<Seq<u8>>::empty());
        },
    }
}

/// Taking a project out leaves every other project and every group.
proof fn lemma_detach_project_bag(forest: Seq<NodeModel>, path: Seq<u8>)
    requires
        detach_project(forest, path) is Some,
    ensures
        project_bag(forest) == project_bag((detach_project(forest, path)->0).0).insert(
            (detach_project(forest, path)->0).1,
        ),
        count_groups((detach_project(forest, path)->0).0) == count_groups(forest),
    decreases forest,
{
    broadcast use vstd::seq_lib::group_to_multiset_ensures;

    let direct = project_at(path);
    let below = project_holder_below(path);
    let (rest, found) = detach_project(forest, path)->0;
    if has_first(forest, direct) {
        let k = first_index(forest, direct);
        assert(is_first(forest, direct, k));
        lemma_bag_split(forest, k);
        lemma_bag_node(forest[k]);
        assert(rest == forest.remove(k));
        assert(forest.remove(k) =~= forest.take(k) + forest.skip(k + 1));
        let a = forest.take(k);
        let b = forest.skip(k + 1);
        let e = Seq::<GroupModel>::empty();
        lemma_group_places_append(a, b, e);
        lemma_project_places_append(a, b, e);
        lemma_paths_concat(project_places(a, e), project_places(b, e));
        vstd::seq_lib::lemma_multiset_commutative(paths_in(a, e), paths_in(b, e));
        assert(project_bag(forest) =~= project_bag(rest).insert(found));
    } else {
        let k = first_index(forest, below);
        assert(is_first(forest, below, k));
        let g = forest[k]->Group_0;
        let children = (detach_project(g.children, path)->0).0;
        let g2 = GroupModel { children: children, ..g };
        lemma_detach_project_bag(g.children, path);
        let updated = forest.update(k, NodeModel::Group(g2));
        assert(rest == updated);
        lemma_bag_split(forest, k);
        lemma_bag_split(updated, k);
        assert(updated.take(k) =~= forest.take(k));
        assert(updated.skip(k + 1) =~= forest.skip(k + 1));
        lemma_bag_node(forest[k]);
        lemma_bag_node(updated[k]);
        assert(project_bag(forest) =~= project_bag(rest).insert(found));
    }
}

/// Taking a group out leaves the projects and groups outside it.
proof fn lemma_detach_group_bag(forest: Seq<NodeModel>, id: u32)
    requires
        detach_group(forest, id) is Some,
    ensures
        project_bag(forest) == project_bag((detach_group(forest, id)->0).0).add(
            project_bag(seq![NodeModel::Group((detach_group(forest, id)->0).1)]),
        ),
        count_groups(forest) == count_groups((detach_group(forest, id)->0).0) + count_groups(
            seq![NodeModel::Group((detach_group(forest, id)->0).1)],
        ),
    decreases forest,
{
    let direct = group_with(id);
    let below = group_holder_below(id);
    let (rest, found) = detach_group(forest, id)->0;
    if has_first(forest, direct) {
        let k = first_index(forest, direct);
        assert(is_first(forest, direct, k));
        lemma_bag_split(forest, k);
        assert(rest == forest.remove(k));
        assert(forest.remove(k) =~= forest.take(k) + forest.skip(k + 1));
        assert(forest[k] == NodeModel::Group(found));
        let a = forest.take(k);
        let b = forest.skip(k + 1);
        let e = Seq::<GroupModel>::empty();
        lemma_group_places_append(a, b, e);
        lemma_project_places_append(a, b, e);
        lemma_paths_concat(project_places(a, e), project_places(b, e));
        vstd::seq_lib::lemma_multiset_commutative(paths_in(a, e), paths_in(b, e));
        assert(project_bag(forest) =~= project_bag(rest).add(project_bag(seq![forest[k]])));
    } else {
        let k = first_index(forest, below);
        assert(is_first(forest, below, k));
        let g = forest[k]->Group_0;
        let children = (detach_group(g.children, id)->0).0;
        let g2 = GroupModel { children: children, ..g };
        lemma_detach_group_bag(g.children, id);
        let updated = forest.update(k, NodeModel::Group(g2));
        assert(rest == updated);
        lemma_bag_split(forest, k);
        lemma_bag_split(updated, k);
        assert(updated.take(k) =~= forest.take(k));
        assert(updated.skip(k + 1) =~= forest.skip(k + 1));
        lemma_bag_node(forest[k]);
        lemma_bag_node(updated[k]);
        assert(project_bag(forest) =~= project_bag(rest).add(
            project_bag(seq![NodeModel::Group(found)]),
        ));
    }
}

/// Appending a node to a group the forest holds adds that node's projects
/// and groups and nothing else.
proof fn lemma_append_bag(forest: Seq<NodeModel>, id: u32, node: NodeModel)
    requires
        find_group(forest, id) is Some,
    ensures
        project_bag(edit_forest(forest, id, GroupEdit::Append(node))) == project_bag(forest).add(
            project_bag(seq![node]),
        ),
        count_groups(edit_forest(forest, id, GroupEdit::Append(node))) == count_groups(forest)
            + count_groups(seq![node]),
    decreases forest,
{
    broadcast use vstd::seq_lib::lemma_multiset_commutative;

    let pred = group_holder(id);
    lemma_holds_iff(forest, id, seq![]);
    let j = choose|j: int| 0 <= j < forest.len() && holds_group(#[trigger] forest[j], id);
    assert(pred(forest[j]));
    lemma_least(forest, pred, j);
    let k = first_index(forest, pred);
    assert(is_first(forest, pred, k));
    let edit = GroupEdit::Append(node);
    let g = forest[k]->Group_0;
    let n2 = edit_node(forest[k], id, edit);
    let updated = forest.update(k, n2);
    assert(edit_forest(forest, id, edit) == updated);
    lemma_bag_split(forest, k);
    lemma_bag_split(updated, k);
    assert(updated.take(k) =~= forest.take(k));
    assert(updated.skip(k + 1) =~= forest.skip(k + 1));
    lemma_bag_node(forest[k]);
    lemma_bag_node(n2);
    if g.id == id {
        let e = Seq::<GroupModel>::empty();
        assert(n2 == NodeModel::Group(apply_edit(g, edit)));
        let grown = g.children.push(node);
        assert(grown =~= g.children + seq![node]);
        lemma_group_places_append(g.children, seq![node], e);
        lemma_project_places_append(g.children, seq![node], e);
        lemma_paths_concat(project_places(g.children, e), project_places(seq![node], e));
        assert(project_bag(grown) =~= project_bag(g.children).add(project_bag(seq![node])));
    } else {
        lemma_append_bag(g.children, id, node);
    }
    assert(project_bag(updated) =~= project_bag(forest).add(project_bag(seq![node])));
}

/// Attaching a node adds its projects and groups and nothing else.
proof fn lemma_attach_bag(forest: Seq<NodeModel>, node: NodeModel, into: Option<u32>)
    ensures
        project_bag(attach(forest, node, into)) == project_bag(forest).add(
            project_bag(seq![node]),
        ),
        count_groups(attach(forest, node, into)) == count_groups(forest) + count_groups(
            seq![node],
        ),
{
    broadcast use vstd::seq_lib::lemma_multiset_commutative;

    if into is Some && find_group(forest, into->0) is Some {
        lemma_append_bag(forest, into->0, node);
    } else {
        let e = Seq::<GroupModel>::empty();
        let grown = forest.push(node);
        assert(grown =~= forest + seq![node]);
        lemma_group_places_append(forest, seq![node], e);
        lemma_project_places_append(forest, seq![node], e);
        lemma_paths_concat(project_places(forest, e), project_places(seq![node], e));
    }
}

/// Moving a project keeps every project of the list, as many times as it
/// was listed, and every group.
pub proof fn law_move_project_keeps_projects(forest: Seq<NodeModel>, path: Seq<u8>, into: Option<u32>)
    requires
        move_project(forest, path, into) is Ok,
    ensures
        project_bag(move_project(forest, path, into)->Ok_0) == project_bag(forest),
        count_groups(move_project(forest, path, into)->Ok_0) == count_groups(forest),
{
    let (rest, found) = detach_project(forest, path)->0;
    lemma_detach_project_bag(forest, path);
    lemma_attach_bag(rest, NodeModel::Project(found), into);
    lemma_bag_node(NodeModel::Project(found));
    assert(project_bag(attach(rest, NodeModel::Project(found), into)) =~= project_bag(forest));
}

/// Moving a group keeps every project and every group of the list.
pub proof fn law_move_group_keeps_projects(forest: Seq<NodeModel>, id: u32, into: Option<u32>)
    requires
        move_group(forest, id, into) is Ok,
    ensures
        project_bag(move_group(forest, id, into)->Ok_0) == project_bag(forest),
        count_groups(move_group(forest, id, into)->Ok_0) == count_groups(forest),
{
    let (rest, found) = detach_group(forest, id)->0;
    lemma_detach_group_bag(forest, id);
    lemma_attach_bag(rest, NodeModel::Group(found), into);
    assert(project_bag(attach(rest, NodeModel::Group(found), into)) =~= project_bag(forest));
}

/// The group a search finds lies in the first node that holds one.
proof fn lemma_found_in_holder(forest: Seq<NodeModel>, id: u32, k: int)
    requires
        is_first(forest, group_holder(id), k),
    ensures
        find_group(forest, id) == first_place(group_part(forest[k], seq![]), id),
        find_group(forest, id) is Some,
{
    let e = Seq::<GroupModel>::empty();
    let a = forest.take(k);
    lemma_split_at(forest, k, e);
    lemma_holds_iff(a, id, seq![]);
    assert forall|j: int| 0 <= j < a.len() implies !holds_group(#[trigger] a[j], id) by {
        assert(a[j] == forest[j]);
        assert(!group_holder(id)(forest[j]));
    }
    assert(first_place(group_places(a, e), id) is None);
    assert(group_holder(id)(forest[k]));
    let g = forest[k]->Group_0;
    lemma_group_part_first(g, e, id);
    lemma_search_indep(g.children, e.push(g), e, id, seq![]);
    lemma_first_place_append(group_places(a, e), group_part(forest[k], e), id);
    lemma_first_place_append(
        group_places(a, e) + group_part(forest[k], e),
        group_places(forest.skip(k + 1), e),
        id,
    );
}

/// An edit reaches the group a search finds: after it, the search finds
/// that group with the edit applied.
proof fn lemma_edit_found(forest: Seq<NodeModel>, id: u32, edit: GroupEdit)
    requires
        find_group(forest, id) is Some,
    ensures
        find_group(edit_forest(forest, id, edit), id) is Some,
        find_group(edit_forest(forest, id, edit), id)->0.group == apply_edit(
            find_group(forest, id)->0.group,
            edit,
        ),
    decreases forest,
{
    let e = Seq::<GroupModel>::empty();
    let pred = group_holder(id);
    lemma_holds_iff(forest, id, seq![]);
    let j = choose|j: int| 0 <= j < forest.len() && holds_group(#[trigger] forest[j], id);
    assert(pred(forest[j]));
    lemma_least(forest, pred, j);
    let k = first_index(forest, pred);
    assert(is_first(forest, pred, k));
    let g = forest[k]->Group_0;
    let n2 = edit_node(forest[k], id, edit);
    let updated = forest.update(k, n2);
    assert(edit_forest(forest, id, edit) == updated);
    lemma_found_in_holder(forest, id, k);
    lemma_group_part_first(g, e, id);
    if g.id == id {
        let g2 = apply_edit(g, edit);
        assert(n2 == NodeModel::Group(g2));
        assert(g2.id == id);
        lemma_group_part_first(g2, e, id);
    } else {
        let children = edit_forest(g.children, id, edit);
        let g2 = GroupModel { children: children, ..g };
        assert(n2 == NodeModel::Group(g2));
        lemma_search_indep(g.children, e.push(g), e, id, seq![]);
        lemma_edit_found(g.children, id, edit);
        lemma_search_indep(children, e.push(g2), e, id, seq![]);
        lemma_group_part_first(g2, e, id);
    }
    assert(is_first(updated, pred, k)) by {
        assert forall|i: int| 0 <= i < k implies !pred(#[trigger] updated[i]) by {
            assert(updated[i] == forest[i]);
        }
        assert(updated[k] == n2);
    }
    lemma_found_in_holder(updated, id, k);
}

/// Collapsing or expanding a group is kept as that group's view state: the
/// group then reads back with the state asked for and with its identifier,
/// name and contents unchanged, and the call reports whether it changed.
pub proof fn law_set_collapsed_reads_back(forest: Seq<NodeModel>, id: u32, collapsed: bool)
    requires
        find_group(forest, id) is Some,
    ensures
        find_group(set_collapsed(forest, id, collapsed).1, id) is Some,
        find_group(set_collapsed(forest, id, collapsed).1, id)->0.group == (GroupModel {
            collapsed: collapsed,
            ..find_group(forest, id)->0.group
        }),
        set_collapsed(forest, id, collapsed).0 == (find_group(forest, id)->0.group.collapsed
            != collapsed),
{
    let place = find_group(forest, id)->0;
    if place.group.collapsed != collapsed {
        lemma_edit_found(forest, id, GroupEdit::Collapse(collapsed));
    } else {
        assert(place.group == GroupModel { collapsed: collapsed, ..place.group });
    }
}

/// A rename is what the group then reads back, trimmed; nothing else of the
/// group changes.
pub proof fn law_rename_reads_back(forest: Seq<NodeModel>, id: u32, name: Seq<char>)
    requires
        rename_group(forest, id, name) is Ok,
    ensures
        find_group(rename_group(forest, id, name)->Ok_0, id) is Some,
        find_group(rename_group(forest, id, name)->Ok_0, id)->0.group == (GroupModel {
            name: trim(name),
            ..find_group(forest, id)->0.group
        }),
{
    lemma_edit_found(forest, id, GroupEdit::Rename(trim(name)));
}

/// A group never moves into itself or into one of its own groups.
pub proof fn law_group_never_moves_inside_itself(forest: Seq<NodeModel>, id: u32, into: u32)
    requires
        into == id || crate::library_model::group_contains(forest, id, into),
    ensures
        (move_group(forest, id, Some(into)) is Err),
{
}

/// The height of two forests side by side is the taller of the two.
proof fn lemma_height_concat(a: Seq<NodeModel>, b: Seq<NodeModel>)
    ensures
        forest_height(a + b) == if forest_height(a) >= forest_height(b) {
            forest_height(a)
        } else {
            forest_height(b)
        },
    decreases b.len(),
{
    if b.len() == 0 {
        assert(a + b =~= a);
    } else {
        lemma_height_concat(a, b.drop_last());
        assert((a + b).drop_last() =~= a + b.drop_last());
        assert((a + b).last() == b.last());
    }
}

/// No node of a forest is taller than the forest.
proof fn lemma_node_within_height(forest: Seq<NodeModel>, k: int)
    requires
        0 <= k < forest.len(),
    ensures
        node_height(forest[k]) <= forest_height(forest),
    decreases forest.len(),
{
    if k < forest.len() - 1 {
        lemma_node_within_height(forest.drop_last(), k);
        assert(forest.drop_last()[k] == forest[k]);
    }
}

/// Replacing one node leaves a forest no taller than the old forest or the
/// new node.
proof fn lemma_height_update(forest: Seq<NodeModel>, k: int, node: NodeModel)
    requires
        0 <= k < forest.len(),
    ensures
        forest_height(forest.update(k, node)) <= if forest_height(forest) >= node_height(node) {
            forest_height(forest)
        } else {
            node_height(node)
        },
{
    let a = forest.take(k);
    let b = forest.skip(k + 1);
    let updated = forest.update(k, node);
    assert(forest =~= a + seq![forest[k]] + b);
    assert(updated =~= a + seq![node] + b);
    lemma_height_concat(a + seq![forest[k]], b);
    lemma_height_concat(a, seq![forest[k]]);
    lemma_height_concat(a + seq![node], b);
    lemma_height_concat(a, seq![node]);
    assert(seq![node].drop_last() =~= Seq::<NodeModel>::empty());
    assert(seq![forest[k]].drop_last() =~= Seq::<NodeModel>::empty());
}

/// The depth at which a search finds a group grows with what encloses the
/// forest, and only by that.
proof fn lemma_depth_shift(forest: Seq<NodeModel>, a: Seq<GroupModel>, b: Seq<GroupModel>, id: u32)
    ensures
        (first_place(group_places(forest, a), id) is Some) == (first_place(
            group_places(forest, b),
            id,
        ) is Some),
        first_place(group_places(forest, a), id) is Some ==> first_place(
            group_places(forest, a),
            id,
        )->0.above.len() + b.len() == first_place(group_places(forest, b), id)->0.above.len()
            + a.len(),
    decreases forest,
{
    if forest.len() > 0 {
        let prefix = forest.drop_last();
        lemma_depth_shift(prefix, a, b, id);
        lemma_first_place_append(group_places(prefix, a), group_part(forest.last(), a), id);
        lemma_first_place_append(group_places(prefix, b), group_part(forest.last(), b), id);
        match forest.last() {
            NodeModel::Group(g) => {
                lemma_depth_shift(g.children, a.push(g), b.push(g), id);
                lemma_group_part_first(g, a, id);
                lemma_group_part_first(g, b, id);
            },
            NodeModel::Project(_) => {
                assert(group_part(forest.last(), a) =~= Seq::<GroupPlace>::empty());
                assert(group_part(forest.last(), b) =~= Seq::<GroupPlace>::empty());
            },
        }
    }
}

/// Appending a node to a group leaves the forest no taller than it was, or
/// than the group's depth and the node's height together.
proof fn lemma_append_height(forest: Seq<NodeModel>, id: u32, node: NodeModel)
    requires
        find_group(forest, id) is Some,
    ensures
        forest_height(edit_forest(forest, id, GroupEdit::Append(node))) <= if forest_height(forest)
            >= depth_of(forest, id)->0 + node_height(node) {
            forest_height(forest) as int
        } else {
            (depth_of(forest, id)->0 + node_height(node)) as int
        },
    decreases forest,
{
    let e = Seq::<GroupModel>::empty();
    let pred = group_holder(id);
    lemma_holds_iff(forest, id, seq![]);
    let j = choose|j: int| 0 <= j < forest.len() && holds_group(#[trigger] forest[j], id);
    assert(pred(forest[j]));
    lemma_least(forest, pred, j);
    let k = first_index(forest, pred);
    assert(is_first(forest, pred, k));
    let edit = GroupEdit::Append(node);
    let g = forest[k]->Group_0;
    let n2 = edit_node(forest[k], id, edit);
    assert(edit_forest(forest, id, edit) == forest.update(k, n2));
    lemma_found_in_holder(forest, id, k);
    lemma_group_part_first(g, e, id);
    lemma_node_within_height(forest, k);
    lemma_height_update(forest, k, n2);
    assert(node_height(forest[k]) == 1 + forest_height(g.children));
    if g.id == id {
        assert(find_group(forest, id)->0.above.len() == 0);
        let grown = g.children.push(node);
        assert(grown =~= g.children + seq![node]);
        lemma_height_concat(g.children, seq![node]);
        assert(seq![node].drop_last() =~= Seq::<NodeModel>::empty());
        assert(forest_height(Seq::<NodeModel>::empty()) == 0);
        assert(seq![node].last() == node);
        assert(forest_height(seq![node]) == node_height(node));
        assert(n2 == NodeModel::Group(apply_edit(g, edit)));
        assert(node_height(n2) == 1 + forest_height(grown));
    } else {
        lemma_depth_shift(g.children, e.push(g), e, id);
        assert(find_group(g.children, id) is Some);
        lemma_append_height(g.children, id, node);
        assert(find_group(forest, id)->0.above.len() == 1 + find_group(g.children, id)->0.above.len());
        assert(node_height(n2) == 1 + forest_height(edit_forest(g.children, id, edit)));
    }
}

/// Creating a group never makes the list deeper than five levels of groups.
pub proof fn law_create_group_keeps_depth(forest: Seq<NodeModel>, parent: Option<u32>, name: Seq<char>)
    requires
        forest_height(forest) <= 5,
        create_group(forest, parent, name) is Ok,
    ensures
        forest_height(create_group(forest, parent, name)->Ok_0.1) <= 5,
{
    let id = next_group_id(forest);
    let node = NodeModel::Group(
        GroupModel { id: id, name: trim(name), collapsed: false, children: seq![] },
    );
    assert(node_height(node) == 1);
    match parent {
        Some(p) => {
            if find_group(forest, p) is Some {
                lemma_append_height(forest, p, node);
            }
        },
        None => {
            assert(forest.push(node).drop_last() =~= forest);
        },
    }
}

/// Some place of `places` holds a group `id` enclosed by `depth` groups.
pub open spec fn has_place(places: Seq<GroupPlace>, id: u32, depth: nat) -> bool {
    exists|i: int| 0 <= i < places.len() && places[i].group.id == id && places[i].above.len() == depth
}

proof fn lemma_has_place_concat(x: Seq<GroupPlace>, y: Seq<GroupPlace>, id: u32, depth: nat)
    ensures
        has_place(x, id, depth) ==> has_place(x + y, id, depth),
        has_place(y, id, depth) ==> has_place(x + y, id, depth),
{
    if has_place(x, id, depth) {
        let i = choose|i: int| 0 <= i < x.len() && x[i].group.id == id && x[i].above.len() == depth;
        assert((x + y)[i] == x[i]);
    }
    if has_place(y, id, depth) {
        let i = choose|i: int| 0 <= i < y.len() && y[i].group.id == id && y[i].above.len() == depth;
        assert((x + y)[x.len() + i] == y[i]);
    }
}

/// The groups a forest holds, and how deep each sits below the forest, do
/// not depend on what encloses the forest.
proof fn lemma_shape_indep(forest: Seq<NodeModel>, a: Seq<GroupModel>, b: Seq<GroupModel>)
    ensures
        group_places(forest, a).len() == group_places(forest, b).len(),
        forall|i: int|
            0 <= i < group_places(forest, a).len() ==> #[trigger] group_places(forest, a)[i].group
                == group_places(forest, b)[i].group && group_places(forest, a)[i].above.len() - a.len()
                == group_places(forest, b)[i].above.len() - b.len(),
    decreases forest,
{
    if forest.len() > 0 {
        let prefix = forest.drop_last();
        lemma_shape_indep(prefix, a, b);
        let pa = group_places(prefix, a);
        let pb = group_places(prefix, b);
        let qa = group_part(forest.last(), a);
        let qb = group_part(forest.last(), b);
        match forest.last() {
            NodeModel::Group(g) => {
                lemma_shape_indep(g.children, a.push(g), b.push(g));
                let ca = group_places(g.children, a.push(g));
                let cb = group_places(g.children, b.push(g));
                assert(qa == seq![GroupPlace { group: g, above: a }] + ca);
                assert(qb == seq![GroupPlace { group: g, above: b }] + cb);
                assert forall|j: int| 0 <= j < qa.len() implies qa[j].group == qb[j].group
                    && qa[j].above.len() - a.len() == qb[j].above.len() - b.len() by {
                    if j > 0 {
                        assert(qa[j] == ca[j - 1]);
                        assert(qb[j] == cb[j - 1]);
                    }
                }
            },
            NodeModel::Project(_) => {
                assert(qa =~= Seq::<GroupPlace>::empty());
                assert(qb =~= Seq::<GroupPlace>::empty());
            },
        }
        assert(group_places(forest, a) == pa + qa);
        assert(group_places(forest, b) == pb + qb);
        assert forall|i: int| 0 <= i < group_places(forest, a).len() implies #[trigger] group_places(
            forest,
            a,
        )[i].group == group_places(forest, b)[i].group && group_places(forest, a)[i].above.len()
            - a.len() == group_places(forest, b)[i].above.len() - b.len() by {
            if i < pa.len() {
                assert(group_places(forest, a)[i] == pa[i]);
                assert(group_places(forest, b)[i] == pb[i]);
            } else {
                assert(group_places(forest, a)[i] == qa[i - pa.len()]);
                assert(group_places(forest, b)[i] == qb[i - pb.len()]);
            }
        }
    }
}

/// A place found by a search is one of the places searched, with the
/// identifier searched for; a search that finds nothing meets no such place.
proof fn lemma_first_place_member(places: Seq<GroupPlace>, id: u32)
    ensures
        first_place(places, id) matches Some(x) ==> x.group.id == id && exists|j: int|
            0 <= j < places.len() && places[j] == x,
        first_place(places, id) is None ==> forall|j: int|
            0 <= j < places.len() ==> (#[trigger] places[j]).group.id != id,
    decreases places.len(),
{
    if places.len() > 0 {
        lemma_first_place_member(places.drop_last(), id);
        match first_place(places.drop_last(), id) {
            Some(x) => {
                let j = choose|j: int| 0 <= j < places.drop_last().len() && places.drop_last()[j] == x;
                assert(places[j] == x);
            },
            None => {
                if places.last().group.id == id {
                    assert(places[places.len() - 1] == places.last());
                } else {
                    assert forall|j: int| 0 <= j < places.len() implies (#[trigger] places[j]).group.id != id by {
                        if j < places.len() - 1 {
                            assert(places[j] == places.drop_last()[j]);
                        }
                    }
                }
            },
        }
    }
}

/// What detaching a group keeps: the group taken out is one of the forest's
/// groups, with the identifier asked for; every group left keeps its depth;
/// and the forest grows no taller.
proof fn lemma_detach(forest: Seq<NodeModel>, id: u32, a: Seq<GroupModel>, b: Seq<GroupModel>)
    requires
        detach_group(forest, id) is Some,
        a.len() == b.len(),
    ensures
        (detach_group(forest, id)->0).1.id == id,
        exists|i: int|
            0 <= i < group_places(forest, a).len() && group_places(forest, a)[i].group
                == (detach_group(forest, id)->0).1,
        forall|i: int|
            0 <= i < group_places((detach_group(forest, id)->0).0, b).len() ==> has_place(
                group_places(forest, a),
                (#[trigger] group_places((detach_group(forest, id)->0).0, b)[i]).group.id,
                group_places((detach_group(forest, id)->0).0, b)[i].above.len(),
            ),
        forest_height((detach_group(forest, id)->0).0) <= forest_height(forest),
    decreases forest,
{
    let direct = group_with(id);
    let below = group_holder_below(id);
    let rest = (detach_group(forest, id)->0).0;
    let found = (detach_group(forest, id)->0).1;
    if has_first(forest, direct) {
        let k = first_index(forest, direct);
        assert(is_first(forest, direct, k));
        let x = forest[k];
        let fa = forest.take(k);
        let fb = forest.skip(k + 1);
        lemma_split_at(forest, k, a);
        assert(rest == forest.remove(k));
        assert(rest =~= fa + fb);
        crate::library_model::lemma_group_places_append(fa, fb, b);
        lemma_shape_indep(fa, a, b);
        lemma_shape_indep(fb, a, b);
        let pa = group_places(fa, a);
        let mid = group_part(x, a);
        let pb = group_places(fb, a);
        let ra = group_places(fa, b);
        let rb = group_places(fb, b);
        assert(mid[0] == GroupPlace { group: found, above: a });
        assert((pa + mid + pb)[pa.len() as int] == mid[0]);
        assert(group_places(forest, a) == pa + mid + pb);
        assert(group_places(rest, b) == ra + rb);
        assert forall|i: int| 0 <= i < group_places(rest, b).len() implies has_place(
            group_places(forest, a),
            (#[trigger] group_places(rest, b)[i]).group.id,
            group_places(rest, b)[i].above.len(),
        ) by {
            let q = group_places(rest, b)[i];
            if i < ra.len() {
                assert(q == ra[i]);
                assert(pa[i].group == ra[i].group);
                lemma_has_place_concat(pa, mid, q.group.id, q.above.len());
                lemma_has_place_concat(pa + mid, pb, q.group.id, q.above.len());
            } else {
                let j = i - ra.len();
                assert(q == rb[j]);
                assert(pb[j].group == rb[j].group);
                lemma_has_place_concat(pa + mid, pb, q.group.id, q.above.len());
            }
        }
        lemma_height_concat(fa + seq![x], fb);
        lemma_height_concat(fa, seq![x]);
        lemma_height_concat(fa, fb);
    } else {
        assert(has_first(forest, below));
        let k = first_index(forest, below);
        assert(is_first(forest, below, k));
        let g = forest[k]->Group_0;
        let children = (detach_group(g.children, id)->0).0;
        let g2 = GroupModel { children: children, ..g };
        assert(rest == forest.update(k, NodeModel::Group(g2)));
        lemma_detach(g.children, id, a.push(g), b.push(g2));
        lemma_split_at(forest, k, a);
        lemma_split_at(rest, k, b);
        assert(rest.take(k) =~= forest.take(k));
        assert(rest.skip(k + 1) =~= forest.skip(k + 1));
        let fa = forest.take(k);
        let fb = forest.skip(k + 1);
        lemma_shape_indep(fa, a, b);
        lemma_shape_indep(fb, a, b);
        let pa = group_places(fa, a);
        let pb = group_places(fb, a);
        let ra = group_places(fa, b);
        let rb = group_places(fb, b);
        let ca = group_places(g.children, a.push(g));
        let cb = group_places(children, b.push(g2));
        let mid = group_part(forest[k], a);
        let rmid = group_part(rest[k], b);
        assert(mid == seq![GroupPlace { group: g, above: a }] + ca);
        assert(rest[k] == NodeModel::Group(g2));
        assert(rmid == seq![GroupPlace { group: g2, above: b }] + cb);
        let fi = choose|i: int| 0 <= i < ca.len() && ca[i].group == found;
        assert(mid[fi + 1] == ca[fi]);
        assert((pa + mid + pb)[pa.len() + fi + 1] == ca[fi]);
        assert(mid[0].group.id == g2.id);
        assert(group_places(forest, a) == pa + mid + pb);
        assert(group_places(rest, b) == ra + rmid + rb);
        assert forall|i: int| 0 <= i < group_places(rest, b).len() implies has_place(
            group_places(forest, a),
            (#[trigger] group_places(rest, b)[i]).group.id,
            group_places(rest, b)[i].above.len(),
        ) by {
            let q = group_places(rest, b)[i];
            if i < ra.len() {
                assert(q == ra[i]);
                assert(pa[i].group == ra[i].group);
                lemma_has_place_concat(pa, mid, q.group.id, q.above.len());
                lemma_has_place_concat(pa + mid, pb, q.group.id, q.above.len());
            } else if i < ra.len() + rmid.len() {
                let j = i - ra.len();
                assert(q == rmid[j]);
                if j == 0 {
                    assert(mid[0].above.len() == q.above.len());
                    assert(has_place(mid, q.group.id, q.above.len()));
                } else {
                    assert(q == cb[j - 1]);
                    assert(cb[j - 1] == group_places((detach_group(g.children, id)->0).0, b.push(g2))[j - 1]);
                    assert(has_place(ca, q.group.id, q.above.len()));
                    lemma_has_place_concat(seq![GroupPlace { group: g, above: a }], ca, q.group.id, q.above.len());
                }
                assert(has_place(mid, q.group.id, q.above.len()));
                lemma_has_place_concat(pa, mid, q.group.id, q.above.len());
                lemma_has_place_concat(pa + mid, pb, q.group.id, q.above.len());
                assert(has_place(pa + mid + pb, q.group.id, q.above.len()));
            } else {
                let j = i - ra.len() - rmid.len();
                assert(q == rb[j]);
                assert(pb[j].group == rb[j].group);
                lemma_has_place_concat(pa + mid, pb, q.group.id, q.above.len());
            }
        }
        assert(node_height(NodeModel::Group(g2)) <= node_height(forest[k]));
        lemma_node_within_height(forest, k);
        lemma_height_update(forest, k, NodeModel::Group(g2));
    }
}

/// In a list whose group identifiers are distinct, a place holding group
/// `id` is the place a search for `id` finds.
proof fn lemma_unique_place(forest: Seq<NodeModel>, id: u32, i: int)
    requires
        unique_ids(group_ids(forest)),
        0 <= i < group_places(forest, seq![]).len(),
        group_places(forest, seq![])[i].group.id == id,
    ensures
        find_group(forest, id) == Some(group_places(forest, seq![])[i]),
{
    let places = group_places(forest, seq![]);
    lemma_first_place_member(places, id);
    assert(places[i].group.id == id);
    let x = find_group(forest, id)->0;
    let j = choose|j: int| 0 <= j < places.len() && places[j] == x;
    let ids = group_ids(forest);
    assert(ids[i] == places[i].group.id);
    assert(ids[j] == places[j].group.id);
    if i < j {
        assert(ids[i] != ids[j]);
    } else if j < i {
        assert(ids[j] != ids[i]);
    }
}

/// Moving a group never makes a list with distinct group identifiers deeper
/// than five levels of groups.
pub proof fn law_move_group_keeps_depth(forest: Seq<NodeModel>, id: u32, into: Option<u32>)
    requires
        forest_height(forest) <= 5,
        unique_ids(group_ids(forest)),
        move_group(forest, id, into) is Ok,
    ensures
        forest_height(move_group(forest, id, into)->Ok_0) <= 5,
{
    let e = Seq::<GroupModel>::empty();
    let places = group_places(forest, e);
    let rest = (detach_group(forest, id)->0).0;
    let found = (detach_group(forest, id)->0).1;
    lemma_detach(forest, id, e, e);
    let fi = choose|i: int| 0 <= i < places.len() && places[i].group == found;
    lemma_unique_place(forest, id, fi);
    let node = NodeModel::Group(found);
    let height = crate::library_model::group_height(forest, id)->0;
    assert(node_height(node) == height);
    assert(rest.push(node).drop_last() =~= rest);
    assert(rest.push(node).last() == node);
    match into {
        None => {
            assert(move_group(forest, id, into)->Ok_0 == rest.push(node));
        },
        Some(t) => {
            if find_group(rest, t) is Some {
                let rplaces = group_places(rest, e);
                lemma_first_place_member(rplaces, t);
                let q = find_group(rest, t)->0;
                let r = choose|r: int| 0 <= r < rplaces.len() && rplaces[r] == q;
                assert(has_place(places, rplaces[r].group.id, rplaces[r].above.len()));
                let p = choose|p: int|
                    0 <= p < places.len() && places[p].group.id == t && places[p].above.len()
                        == q.above.len();
                lemma_unique_place(forest, t, p);
                assert(depth_of(rest, t) == depth_of(forest, t));
                lemma_append_height(rest, t, node);
            } else {
                assert(move_group(forest, id, into)->Ok_0 == rest.push(node));
            }
        },
    }
}

/// The group identifiers of a forest, as many times as each is used.
pub open spec fn group_bag(forest: Seq<NodeModel>) -> Multiset<u32> {
    group_ids(forest).to_multiset()
}

pub open spec fn ids_of(places: Seq<GroupPlace>) -> Seq<u32> {
    places.map_values(|p: GroupPlace| p.group.id)
}

proof fn lemma_ids_concat(x: Seq<GroupPlace>, y: Seq<GroupPlace>)
    ensures
        ids_of(x + y) == ids_of(x) + ids_of(y),
        ids_of(x + y).to_multiset() == ids_of(x).to_multiset().add(ids_of(y).to_multiset()),
{
    assert(ids_of(x + y) =~= ids_of(x) + ids_of(y));
    vstd::seq_lib::lemma_multiset_commutative(ids_of(x), ids_of(y));
}

/// The group identifiers of a forest are those before a node, of the node,
/// and after it.
proof fn lemma_group_bag_split(forest: Seq<NodeModel>, k: int)
    requires
        0 <= k < forest.len(),
    ensures
        group_bag(forest) == group_bag(forest.take(k)).add(group_bag(seq![forest[k]])).add(
            group_bag(forest.skip(k + 1)),
        ),
{
    let e = Seq::<GroupModel>::empty();
    let a = forest.take(k);
    let one = seq![forest[k]];
    let b = forest.skip(k + 1);
    assert(forest =~= a + one + b);
    lemma_group_places_append(a + one, b, e);
    lemma_group_places_append(a, one, e);
    lemma_ids_concat(group_places(a + one, e), group_places(b, e));
    lemma_ids_concat(group_places(a, e), group_places(one, e));
    assert(group_ids(forest) == ids_of(group_places(forest, e)));
}

/// The group identifiers of a single node.
proof fn lemma_group_bag_node(node: NodeModel)
    ensures
        group_bag(seq![node]) == match node {
            NodeModel::Group(g) => group_bag(g.children).insert(g.id),
            NodeModel::Project(_) => Multiset::<u32>::empty(),
        },
{
    broadcast use vstd::seq_lib::group_to_multiset_ensures;

    let e = Seq::<GroupModel>::empty();
    let one = seq![node];
    assert(one.drop_last() =~= Seq::<NodeModel>::empty());
    assert(group_places(Seq::<NodeModel>::empty(), e) =~= Seq::<GroupPlace>::empty());
    assert(group_places(one, e) =~= group_part(node, e));
    match node {
        NodeModel::Group(g) => {
            let head = seq![GroupPlace { group: g, above: e }];
            let inner = group_places(g.children, e.push(g));
            assert(group_part(node, e) == head + inner);
            lemma_ids_concat(head, inner);
            lemma_shape_indep(g.children, e.push(g), e);
            assert(ids_of(inner) =~= group_ids(g.children));
            assert(ids_of(head) =~= Seq::<u32>::empty().push(g.id));
            assert(Seq::<u32>::empty().to_multiset() =~= Multiset::<u32>::empty());
            assert(group_bag(one) =~= group_bag(g.children).insert(g.id));
        },
        NodeModel::Project(_) => {
            assert(group_ids(one) =~= Seq::<u32>::empty());
            assert(Seq::<u32>::empty().to_multiset() =~= Multiset::<u32>::empty());
        },
    }
}

/// Taking a group out leaves the identifiers of every group outside it.
proof fn lemma_detach_group_ids(forest: Seq<NodeModel>, id: u32)
    requires
        detach_group(forest, id) is Some,
    ensures
        group_bag(forest) == group_bag((detach_group(forest, id)->0).0).add(
            group_bag(seq![NodeModel::Group((detach_group(forest, id)->0).1)]),
        ),
    decreases forest,
{
    let direct = group_with(id);
    let below = group_holder_below(id);
    let rest = (detach_group(forest, id)->0).0;
    let found = (detach_group(forest, id)->0).1;
    let e = Seq::<GroupModel>::empty();
    if has_first(forest, direct) {
        let k = first_index(forest, direct);
        assert(is_first(forest, direct, k));
        lemma_group_bag_split(forest, k);
        assert(rest == forest.remove(k));
        assert(forest.remove(k) =~= forest.take(k) + forest.skip(k + 1));
        assert(forest[k] == NodeModel::Group(found));
        let a = forest.take(k);
        let b = forest.skip(k + 1);
        lemma_group_places_append(a, b, e);
        lemma_ids_concat(group_places(a, e), group_places(b, e));
        assert(group_ids(rest) == ids_of(group_places(a, e) + group_places(b, e)));
        assert(group_bag(forest) =~= group_bag(rest).add(group_bag(seq![forest[k]])));
    } else {
        let k = first_index(forest, below);
        assert(is_first(forest, below, k));
        let g = forest[k]->Group_0;
        let children = (detach_group(g.children, id)->0).0;
        let g2 = GroupModel { children: children, ..g };
        lemma_detach_group_ids(g.children, id);
        let updated = forest.update(k, NodeModel::Group(g2));
        assert(rest == updated);
        lemma_group_bag_split(forest, k);
        lemma_group_bag_split(updated, k);
        assert(updated.take(k) =~= forest.take(k));
        assert(updated.skip(k + 1) =~= forest.skip(k + 1));
        lemma_group_bag_node(forest[k]);
        lemma_group_bag_node(updated[k]);
        assert(group_bag(forest) =~= group_bag(rest).add(group_bag(seq![NodeModel::Group(found)])));
    }
}

/// Appending a node to a group the forest holds adds that node's group
/// identifiers and nothing else.
proof fn lemma_append_group_ids(forest: Seq<NodeModel>, id: u32, node: NodeModel)
    requires
        find_group(forest, id) is Some,
    ensures
        group_bag(edit_forest(forest, id, GroupEdit::Append(node))) == group_bag(forest).add(
            group_bag(seq![node]),
        ),
    decreases forest,
{
    let pred = group_holder(id);
    lemma_holds_iff(forest, id, seq![]);
    let j = choose|j: int| 0 <= j < forest.len() && holds_group(#[trigger] forest[j], id);
    assert(pred(forest[j]));
    lemma_least(forest, pred, j);
    let k = first_index(forest, pred);
    assert(is_first(forest, pred, k));
    let edit = GroupEdit::Append(node);
    let g = forest[k]->Group_0;
    let n2 = edit_node(forest[k], id, edit);
    let updated = forest.update(k, n2);
    assert(edit_forest(forest, id, edit) == updated);
    lemma_group_bag_split(forest, k);
    lemma_group_bag_split(updated, k);
    assert(updated.take(k) =~= forest.take(k));
    assert(updated.skip(k + 1) =~= forest.skip(k + 1));
    lemma_group_bag_node(forest[k]);
    lemma_group_bag_node(n2);
    if g.id == id {
        let e = Seq::<GroupModel>::empty();
        assert(n2 == NodeModel::Group(apply_edit(g, edit)));
        let grown = g.children.push(node);
        assert(grown =~= g.children + seq![node]);
        lemma_group_places_append(g.children, seq![node], e);
        lemma_ids_concat(group_places(g.children, e), group_places(seq![node], e));
        assert(group_ids(grown) == ids_of(group_places(g.children, e) + group_places(seq![node], e)));
        assert(group_bag(grown) =~= group_bag(g.children).add(group_bag(seq![node])));
    } else {
        lemma_append_group_ids(g.children, id, node);
    }
    assert(group_bag(updated) =~= group_bag(forest).add(group_bag(seq![node])));
}

/// Attaching a node adds its group identifiers and nothing else.
proof fn lemma_attach_group_ids(forest: Seq<NodeModel>, node: NodeModel, into: Option<u32>)
    ensures
        group_bag(attach(forest, node, into)) == group_bag(forest).add(group_bag(seq![node])),
{
    if into is Some && find_group(forest, into->0) is Some {
        lemma_append_group_ids(forest, into->0, node);
    } else {
        let e = Seq::<GroupModel>::empty();
        let grown = forest.push(node);
        assert(grown =~= forest + seq![node]);
        lemma_group_places_append(forest, seq![node], e);
        lemma_ids_concat(group_places(forest, e), group_places(seq![node], e));
        assert(group_ids(grown) == ids_of(group_places(forest, e) + group_places(seq![node], e)));
    }
}

/// Distinct identifiers stay distinct in any list with the same identifiers.
proof fn lemma_unique_from_bag(a: Seq<u32>, b: Seq<u32>)
    requires
        unique_ids(a),
        a.to_multiset() == b.to_multiset(),
    ensures
        unique_ids(b),
{
    assert(a.no_duplicates()) by {
        assert forall|i: int, j: int| 0 <= i < a.len() && 0 <= j < a.len() && i != j implies a[i]
            != a[j] by {
            if i < j {
                assert(a[i] != a[j]);
            } else {
                assert(a[j] != a[i]);
            }
        }
    }
    a.lemma_multiset_has_no_duplicates();
    b.lemma_multiset_has_no_duplicates_conv();
    assert forall|i: int, j: int| 0 <= i < j < b.len() implies b[i] != b[j] by {
        assert(b.no_duplicates());
    }
}

/// Moving a group keeps every group identifier of the list, as many times
/// as it is used, so distinct identifiers stay distinct.
pub proof fn law_move_group_keeps_ids(forest: Seq<NodeModel>, id: u32, into: Option<u32>)
    requires
        move_group(forest, id, into) is Ok,
    ensures
        group_bag(move_group(forest, id, into)->Ok_0) == group_bag(forest),
        unique_ids(group_ids(forest)) ==> unique_ids(group_ids(move_group(forest, id, into)->Ok_0)),
{
    let rest = (detach_group(forest, id)->0).0;
    let found = (detach_group(forest, id)->0).1;
    lemma_detach_group_ids(forest, id);
    lemma_attach_group_ids(rest, NodeModel::Group(found), into);
    let after = move_group(forest, id, into)->Ok_0;
    assert(after == attach(rest, NodeModel::Group(found), into));
    assert(group_bag(after) =~= group_bag(forest));
    if unique_ids(group_ids(forest)) {
        lemma_unique_from_bag(group_ids(forest), group_ids(after));
    }
}

/// No group of a list has an identifier above the largest.
proof fn lemma_ids_below_max(places: Seq<GroupPlace>)
    ensures
        forall|i: int| 0 <= i < places.len() ==> (#[trigger] places[i]).group.id <= crate::library_model::max_group_id(places),
    decreases places.len(),
{
    if places.len() > 0 {
        lemma_ids_below_max(places.drop_last());
        assert forall|i: int| 0 <= i < places.len() implies (#[trigger] places[i]).group.id
            <= crate::library_model::max_group_id(places) by {
            if i < places.len() - 1 {
                assert(places[i] == places.drop_last()[i]);
            }
        }
    }
}

/// A new group receives an identifier no group of the list uses, so distinct
/// identifiers stay distinct, unless some group already has the largest
/// identifier there is.
pub proof fn law_create_group_keeps_ids_distinct(forest: Seq<NodeModel>, parent: Option<u32>, name: Seq<char>)
    requires
        unique_ids(group_ids(forest)),
        create_group(forest, parent, name) is Ok,
        crate::library_model::max_group_id(group_places(forest, seq![])) < u32::MAX,
    ensures
        group_bag((create_group(forest, parent, name)->Ok_0).1) == group_bag(forest).insert(
            (create_group(forest, parent, name)->Ok_0).0,
        ),
        !group_ids(forest).contains((create_group(forest, parent, name)->Ok_0).0),
        unique_ids(group_ids((create_group(forest, parent, name)->Ok_0).1)),
{
    broadcast use vstd::seq_lib::group_to_multiset_ensures;

    let places = group_places(forest, seq![]);
    let id = next_group_id(forest);
    let node = NodeModel::Group(
        GroupModel { id: id, name: trim(name), collapsed: false, children: seq![] },
    );
    let after = (create_group(forest, parent, name)->Ok_0).1;
    assert(after == attach(forest, node, parent));
    lemma_attach_group_ids(forest, node, parent);
    lemma_group_bag_node(node);
    assert(group_places(Seq::<NodeModel>::empty(), seq![]) =~= Seq::<GroupPlace>::empty());
    assert(group_ids(Seq::<NodeModel>::empty()) =~= Seq::<u32>::empty());
    assert(Seq::<u32>::empty().to_multiset() =~= Multiset::<u32>::empty());
    assert(group_bag(after) =~= group_bag(forest).insert(id));
    lemma_ids_below_max(places);
    let ids = group_ids(forest);
    assert forall|i: int| 0 <= i < ids.len() implies ids[i] != id by {
        assert(ids[i] == places[i].group.id);
    }
    assert(!ids.contains(id));
    let grown = ids.push(id);
    assert(grown.to_multiset() =~= ids.to_multiset().insert(id));
    assert(unique_ids(grown)) by {
        assert forall|i: int, j: int| 0 <= i < j < grown.len() implies grown[i] != grown[j] by {
            if j < ids.len() {
                assert(grown[i] == ids[i]);
                assert(grown[j] == ids[j]);
            } else {
                assert(grown[i] == ids[i]);
            }
        }
    }
    lemma_unique_from_bag(grown, group_ids(after));
}

} // verus!
