//! Every request to the project list keeps a valid list valid: remembering,
//! forgetting and moving projects, creating, renaming, collapsing, moving and
//! removing groups. A list the application saved therefore always passes the
//! validation that loading applies.
use vstd::prelude::*;
use crate::library_model::{
    count_groups, count_projects, edit_forest, edit_node, first_index, first_problem, group_holder,
    group_ids, group_name_refusal, group_part, group_places, has_first, node_problem,
    project_part, project_paths, project_places, rename_group, set_collapsed, unique_ids,
    unique_paths, validation_error, GroupEdit, GroupModel, GroupPlace, NodeModel, ProjectPlace,
};
use crate::library_model::{
    contains_project, first_project, lemma_first_problem_append, lemma_project_places_append,
    lemma_remove_top_project, make_room, remember, top_project, is_first, detach_project,
    project_at, project_holder_below, remove_group, group_with, group_holder_below, attach,
    create_group, find_group, first_place, holds_group, lemma_group_part_first, lemma_holds_iff,
    lemma_least, lemma_search_indep, lemma_first_place_append, max_group_id, next_group_id,
    move_project, move_group, detach_group, forest_height, node_height,
};
use crate::library_laws::paths_in;
use crate::library_model::lemma_first_place_found;
use crate::library_laws::lemma_split_at;
use crate::paths::{is_absolute, same_path};
use crate::text::{is_white_space, trim, trim_end, trim_start};

verus! {

/// Two nodes of the same shape: the same project, or groups with the same
/// identifier and children of the same shape, the second named as the first
/// or with a name a group may have. Collapse states may differ.
pub open spec fn node_similar(n: NodeModel, m: NodeModel) -> bool
    decreases n, 0nat,
{
    match n {
        NodeModel::Project(p) => m == NodeModel::Project(p),
        NodeModel::Group(g) => match m {
            NodeModel::Group(h) => h.id == g.id && (h.name == g.name || group_name_refusal(h.name) is None)
                && forest_similar(g.children, h.children),
            NodeModel::Project(_) => false,
        },
    }
}

/// Two forests whose nodes have, one by one, the same shape.
pub open spec fn forest_similar(f: Seq<NodeModel>, g: Seq<NodeModel>) -> bool
    decreases f, 1nat,
{
    f.len() == g.len() && forall|i: int| 0 <= i < f.len() ==> node_similar(#[trigger] f[i], g[i])
}

pub open spec fn place_ids(places: Seq<GroupPlace>) -> Seq<u32> {
    places.map_values(|p: GroupPlace| p.group.id)
}

pub open spec fn place_paths_of(places: Seq<ProjectPlace>) -> Seq<Seq<u8>> {
    places.map_values(|p: ProjectPlace| p.path)
}

proof fn lemma_similar_places(f: Seq<NodeModel>, g: Seq<NodeModel>, a: Seq<GroupModel>, b: Seq<GroupModel>)
    requires
        forest_similar(f, g),
    ensures
        place_ids(group_places(f, a)) == place_ids(group_places(g, b)),
        place_paths_of(project_places(f, a)) == place_paths_of(project_places(g, b)),
    decreases f,
{
    if f.len() > 0 {
        let n = f.last();
        let m = g.last();
        assert(f.drop_last().len() == g.drop_last().len());
        assert forall|i: int| 0 <= i < f.drop_last().len() implies node_similar(
            #[trigger] f.drop_last()[i],
            g.drop_last()[i],
        ) by {
            assert(node_similar(f[i], g[i]));
        }
        lemma_similar_places(f.drop_last(), g.drop_last(), a, b);
        assert(node_similar(f[f.len() - 1], g[g.len() - 1]));
        let gp_f = group_part(n, a);
        let gp_g = group_part(m, b);
        let pp_f = project_part(n, a);
        let pp_g = project_part(m, b);
        match n {
            NodeModel::Group(x) => {
                let y = m->Group_0;
                lemma_similar_places(x.children, y.children, a.push(x), b.push(y));
                assert(place_ids(gp_f) =~= seq![x.id] + place_ids(group_places(x.children, a.push(x))));
                assert(place_ids(gp_g) =~= seq![y.id] + place_ids(group_places(y.children, b.push(y))));
                assert(pp_f == project_places(x.children, a.push(x)));
                assert(pp_g == project_places(y.children, b.push(y)));
            },
            NodeModel::Project(p) => {
                assert(place_ids(gp_f) =~= Seq::<u32>::empty());
                assert(place_ids(gp_g) =~= Seq::<u32>::empty());
                assert(place_paths_of(pp_f) =~= seq![p]);
                assert(place_paths_of(pp_g) =~= seq![p]);
            },
        }
        assert(group_places(f, a) == group_places(f.drop_last(), a) + gp_f);
        assert(group_places(g, b) == group_places(g.drop_last(), b) + gp_g);
        assert(place_ids(group_places(f, a)) =~= place_ids(group_places(f.drop_last(), a)) + place_ids(
            gp_f,
        ));
        assert(place_ids(group_places(g, b)) =~= place_ids(group_places(g.drop_last(), b)) + place_ids(
            gp_g,
        ));
        assert(project_places(f, a) == project_places(f.drop_last(), a) + pp_f);
        assert(project_places(g, b) == project_places(g.drop_last(), b) + pp_g);
        assert(place_paths_of(project_places(f, a)) =~= place_paths_of(
            project_places(f.drop_last(), a),
        ) + place_paths_of(pp_f));
        assert(place_paths_of(project_places(g, b)) =~= place_paths_of(
            project_places(g.drop_last(), b),
        ) + place_paths_of(pp_g));
    } else {
        assert(place_ids(group_places(f, a)) =~= Seq::<u32>::empty());
        assert(place_ids(group_places(g, b)) =~= Seq::<u32>::empty());
        assert(place_paths_of(project_places(f, a)) =~= Seq::<Seq<u8>>::empty());
        assert(place_paths_of(project_places(g, b)) =~= Seq::<Seq<u8>>::empty());
    }
}

proof fn lemma_similar_problem(f: Seq<NodeModel>, g: Seq<NodeModel>, depth: nat)
    requires
        forest_similar(f, g),
        first_problem(f, depth) is None,
    ensures
        first_problem(g, depth) is None,
    decreases f,
{
    if f.len() > 0 {
        assert forall|i: int| 0 <= i < f.drop_last().len() implies node_similar(
            #[trigger] f.drop_last()[i],
            g.drop_last()[i],
        ) by {
            assert(node_similar(f[i], g[i]));
        }
        lemma_similar_problem(f.drop_last(), g.drop_last(), depth);
        let n = f.last();
        let m = g.last();
        assert(node_similar(f[f.len() - 1], g[g.len() - 1]));
        assert(node_problem(n, depth) is None);
        match n {
            NodeModel::Group(x) => {
                let y = m->Group_0;
                assert(m == NodeModel::Group(y));
                assert(depth + 1 <= 5);
                assert(group_name_refusal(x.name) is None);
                assert(group_name_refusal(y.name) is None);
                assert(first_problem(x.children, depth + 1) is None);
                lemma_similar_problem(x.children, y.children, depth + 1);
                assert(node_problem(m, depth) is None);
            },
            NodeModel::Project(p) => {
                assert(node_problem(m, depth) is None);
            },
        }
        assert(g.drop_last().len() == f.drop_last().len());
        assert(first_problem(g, depth) == match first_problem(g.drop_last(), depth) {
            Some(problem) => Some(problem),
            None => node_problem(g.last(), depth),
        });
    }
}

proof fn lemma_similar_refl(f: Seq<NodeModel>)
    ensures
        forest_similar(f, f),
    decreases f,
{
    assert forall|i: int| 0 <= i < f.len() implies node_similar(#[trigger] f[i], f[i]) by {
        lemma_node_similar_refl(f[i]);
    }
}

proof fn lemma_node_similar_refl(n: NodeModel)
    ensures
        node_similar(n, n),
    decreases n,
{
    if let NodeModel::Group(g) = n {
        lemma_similar_refl(g.children);
    }
}

/// An edit that keeps the shape: a new collapse state, or a name a group
/// may have.
pub open spec fn shape_keeping(edit: GroupEdit) -> bool {
    match edit {
        GroupEdit::Collapse(_) => true,
        GroupEdit::Rename(name) => group_name_refusal(name) is None,
        GroupEdit::Append(_) => false,
    }
}

proof fn lemma_edit_similar(f: Seq<NodeModel>, id: u32, edit: GroupEdit)
    requires
        shape_keeping(edit),
    ensures
        forest_similar(f, edit_forest(f, id, edit)),
    decreases f, 1nat,
{
    lemma_similar_refl(f);
    let pred = group_holder(id);
    if has_first(f, pred) {
        let k = first_index(f, pred);
        if 0 <= k < f.len() {
            lemma_edit_node_similar(f[k], id, edit);
            let after = edit_forest(f, id, edit);
            assert(after == f.update(k, edit_node(f[k], id, edit)));
            assert forall|i: int| 0 <= i < f.len() implies node_similar(#[trigger] f[i], after[i]) by {
                if i != k {
                    assert(node_similar(f[i], f[i]));
                }
            }
        }
    }
}

proof fn lemma_edit_node_similar(n: NodeModel, id: u32, edit: GroupEdit)
    requires
        shape_keeping(edit),
    ensures
        node_similar(n, edit_node(n, id, edit)),
    decreases n, 0nat,
{
    match n {
        NodeModel::Group(g) => {
            if g.id == id {
                lemma_similar_refl(g.children);
            } else {
                lemma_edit_similar(g.children, id, edit);
            }
        },
        NodeModel::Project(_) => {},
    }
}

proof fn lemma_similar_valid(f: Seq<NodeModel>, g: Seq<NodeModel>)
    requires
        forest_similar(f, g),
        validation_error(f) is None,
    ensures
        validation_error(g) is None,
{
    let e = Seq::<GroupModel>::empty();
    lemma_similar_places(f, g, e, e);
    lemma_similar_problem(f, g, 0);
    assert(place_ids(group_places(f, e)).len() == group_places(f, e).len());
    assert(place_ids(group_places(g, e)).len() == group_places(g, e).len());
    assert(place_paths_of(project_places(f, e)).len() == project_places(f, e).len());
    assert(place_paths_of(project_places(g, e)).len() == project_places(g, e).len());
    assert(group_ids(f) == place_ids(group_places(f, e)));
    assert(group_ids(g) == place_ids(group_places(g, e)));
    assert(project_paths(f) == place_paths_of(project_places(f, e)));
    assert(project_paths(g) == place_paths_of(project_places(g, e)));
}

proof fn lemma_trim_start_head(s: Seq<char>)
    ensures
        trim_start(s).len() == 0 || !is_white_space(trim_start(s)[0]),
    decreases s.len(),
{
    if s.len() > 0 && is_white_space(s[0]) {
        lemma_trim_start_head(s.drop_first());
    }
}

proof fn lemma_trim_end_shape(s: Seq<char>)
    ensures
        trim_end(s).len() <= s.len(),
        trim_end(s) == s.take(trim_end(s).len() as int),
        trim_end(s).len() == 0 || !is_white_space(trim_end(s).last()),
    decreases s.len(),
{
    if s.len() > 0 && is_white_space(s.last()) {
        lemma_trim_end_shape(s.drop_last());
        assert(s.drop_last().take(trim_end(s).len() as int) =~= s.take(trim_end(s).len() as int));
    } else {
        assert(s.take(s.len() as int) =~= s);
    }
}

/// Trimming trimmed text changes nothing.
proof fn lemma_trim_idempotent(s: Seq<char>)
    ensures
        trim(trim(s)) == trim(s),
{
    let t = trim(s);
    let u = trim_start(s);
    lemma_trim_start_head(s);
    lemma_trim_end_shape(u);
    lemma_trim_end_shape(t);
    if t.len() > 0 {
        assert(t[0] == u[0]);
    }
    assert(trim_start(t) == t);
    assert(trim_end(t) == t);
}

/// Collapsing or expanding a group, and renaming it, keep a valid project
/// list valid: its identifiers, paths, counts and nesting are those it had,
/// and a new name is one a group may have.
pub proof fn law_group_edits_keep_the_list_valid(
    forest: Seq<NodeModel>,
    id: u32,
    collapsed: bool,
    name: Seq<char>,
)
    requires
        validation_error(forest) is None,
    ensures
        validation_error(set_collapsed(forest, id, collapsed).1) is None,
        rename_group(forest, id, name) matches Ok(after) ==> validation_error(after) is None,
{
    lemma_edit_similar(forest, id, GroupEdit::Collapse(collapsed));
    lemma_similar_refl(forest);
    if set_collapsed(forest, id, collapsed).0 {
        lemma_similar_valid(forest, edit_forest(forest, id, GroupEdit::Collapse(collapsed)));
    }
    if rename_group(forest, id, name) is Ok {
        lemma_trim_idempotent(name);
        assert(group_name_refusal(trim(name)) is None);
        lemma_edit_similar(forest, id, GroupEdit::Rename(trim(name)));
        lemma_similar_valid(forest, edit_forest(forest, id, GroupEdit::Rename(trim(name))));
    }
}

/// A path has a first match among the places exactly when some place
/// matches it.
proof fn lemma_first_project_exists(places: Seq<ProjectPlace>, path: Seq<u8>)
    ensures
        (first_project(places, path) is Some) == (exists|i: int|
            0 <= i < places.len() && same_path(#[trigger] places[i].path, path)),
    decreases places.len(),
{
    if places.len() > 0 {
        let rest = places.drop_last();
        lemma_first_project_exists(rest, path);
        if first_project(rest, path) is Some {
            let i = choose|i: int| 0 <= i < rest.len() && same_path(#[trigger] rest[i].path, path);
            assert(places[i] == rest[i]);
        }
        if exists|i: int| 0 <= i < places.len() && same_path(#[trigger] places[i].path, path) {
            let i = choose|i: int| 0 <= i < places.len() && same_path(#[trigger] places[i].path, path);
            if i < places.len() - 1 {
                assert(rest[i] == places[i]);
            }
        }
    }
}

/// Taking a top-level project out of a valid list leaves it valid, and a
/// path it did not hold it still does not hold.
proof fn lemma_remove_top_valid(forest: Seq<NodeModel>, k: int)
    requires
        0 <= k < forest.len(),
        forest[k] is Project,
        validation_error(forest) is None,
    ensures
        validation_error(forest.remove(k)) is None,
        forall|path: Seq<u8>|
            !contains_project(forest, path) ==> !(#[trigger] contains_project(forest.remove(k), path)),
{
    let e = Seq::<GroupModel>::empty();
    let a = forest.take(k);
    let b = forest.skip(k + 1);
    let one = seq![forest[k]];
    lemma_split_at(forest, k, e);
    lemma_remove_top_project(forest, k, e);
    let rest = forest.remove(k);
    assert(rest =~= a + b);
    assert(forest =~= (a + one) + b);
    lemma_first_problem_append(a + one, b, 0);
    lemma_first_problem_append(a, one, 0);
    lemma_first_problem_append(a, b, 0);
    lemma_project_places_append(a, b, e);
    let pa = project_places(a, e);
    let pb = project_places(b, e);
    let mid = project_part(forest[k], e);
    assert(mid.len() == 1);
    let all = project_places(forest, e);
    assert(all == pa + mid + pb);
    assert(project_places(rest, e) == pa + pb);
    let paths = project_paths(forest);
    let kept = project_paths(rest);
    let j = pa.len() as int;
    assert forall|i: int| 0 <= i < kept.len() implies #[trigger] kept[i] == paths[if i < j {
        i
    } else {
        i + 1
    }] by {
        if i < j {
            assert(kept[i] == pa[i].path);
            assert(paths[i] == all[i].path);
            assert(all[i] == pa[i]);
        } else {
            assert(kept[i] == pb[i - j].path);
            assert(all[i + 1] == pb[i - j]);
        }
    }
    assert(kept.len() + 1 == paths.len());
    assert forall|x: int, y: int| 0 <= x < y < kept.len() implies !same_path(
        #[trigger] kept[x],
        #[trigger] kept[y],
    ) by {
        let xx = if x < j {
            x
        } else {
            x + 1
        };
        let yy = if y < j {
            y
        } else {
            y + 1
        };
        assert(kept[x] == paths[xx]);
        assert(kept[y] == paths[yy]);
    }
    assert(group_ids(rest) == group_ids(forest));
    assert forall|path: Seq<u8>| !contains_project(forest, path) implies !(
    #[trigger] contains_project(rest, path)) by {
        lemma_first_project_exists(all, path);
        lemma_first_project_exists(project_places(rest, e), path);
        if contains_project(rest, path) {
            let i = choose|i: int|
                0 <= i < project_places(rest, e).len() && same_path(
                    #[trigger] project_places(rest, e)[i].path,
                    path,
                );
            let ii = if i < j {
                i
            } else {
                i + 1
            };
            assert(kept[i] == project_places(rest, e)[i].path);
            assert(paths[ii] == all[ii].path);
            assert(same_path(all[ii].path, path));
        }
    }
}

/// Making room keeps a valid list valid and holds no path the list did not.
proof fn lemma_make_room_valid(forest: Seq<NodeModel>)
    requires
        validation_error(forest) is None,
    ensures
        validation_error(make_room(forest).1) is None,
        forall|path: Seq<u8>|
            !contains_project(forest, path) ==> !(#[trigger] contains_project(
                make_room(forest).1,
                path,
            )),
    decreases count_projects(forest),
{
    if count_projects(forest) >= 256 && has_first(forest, top_project()) {
        let k = first_index(forest, top_project());
        assert(is_first(forest, top_project(), k));
        lemma_remove_top_project(forest, k, seq![]);
        lemma_remove_top_valid(forest, k);
        lemma_make_room_valid(forest.remove(k));
    }
}

/// Remembering a project keeps a valid project list valid: the new project
/// is absolute and in no other place, and a full list first makes room.
pub proof fn law_remember_keeps_the_list_valid(forest: Seq<NodeModel>, path: Seq<u8>)
    requires
        validation_error(forest) is None,
    ensures
        validation_error(remember(forest, path).1) is None,
{
    if is_absolute(path) && !contains_project(forest, path) {
        lemma_make_room_valid(forest);
        let (room, after) = make_room(forest);
        if room {
            crate::library_laws::law_remember_keeps_groups(forest, path);
            let e = Seq::<GroupModel>::empty();
            let node = NodeModel::Project(path);
            let grown = after.push(node);
            assert(grown.drop_last() =~= after);
            assert(node_problem(node, 0) is None);
            assert(group_part(node, e) =~= Seq::<GroupPlace>::empty());
            assert(group_places(grown, e) =~= group_places(after, e));
            let place = ProjectPlace { path: path, above: e };
            assert(project_part(node, e) =~= seq![place]);
            let before = project_places(after, e);
            assert(project_places(grown, e) == before + seq![place]);
            assert(!contains_project(after, path));
            lemma_first_project_exists(before, path);
            let old_paths = project_paths(after);
            let new_paths = project_paths(grown);
            assert(new_paths =~= old_paths.push(path));
            assert forall|x: int, y: int| 0 <= x < y < new_paths.len() implies !same_path(
                #[trigger] new_paths[x],
                #[trigger] new_paths[y],
            ) by {
                if y < old_paths.len() {
                    assert(new_paths[x] == old_paths[x]);
                    assert(new_paths[y] == old_paths[y]);
                } else {
                    assert(new_paths[x] == before[x].path);
                    assert(new_paths[y] == path);
                }
            }
        }
    }
}

/// Paths that are distinct stay distinct when one of them is taken out.
proof fn lemma_unique_remove(paths: Seq<Seq<u8>>, j: int)
    requires
        unique_paths(paths),
        0 <= j < paths.len(),
    ensures
        unique_paths(paths.remove(j)),
{
    let kept = paths.remove(j);
    assert forall|x: int, y: int| 0 <= x < y < kept.len() implies !same_path(
        #[trigger] kept[x],
        #[trigger] kept[y],
    ) by {
        let xx = if x < j {
            x
        } else {
            x + 1
        };
        let yy = if y < j {
            y
        } else {
            y + 1
        };
        assert(kept[x] == paths[xx]);
        assert(kept[y] == paths[yy]);
    }
}

proof fn lemma_first_problem_single(n: NodeModel, depth: nat)
    ensures
        first_problem(seq![n], depth) == node_problem(n, depth),
{
    let one = seq![n];
    assert(one.drop_last() =~= Seq::<NodeModel>::empty());
    assert(one.last() == n);
    assert(first_problem(one.drop_last(), depth) is None);
    assert(first_problem(one, depth) == match first_problem(one.drop_last(), depth) {
        Some(problem) => Some(problem),
        None => node_problem(one.last(), depth),
    });
}

/// Putting `node` in place of node `k` of a forest without problems: when
/// the new node has none, holds groups with the same identifiers and one
/// project fewer, so does the forest.
proof fn lemma_replace_node(
    forest: Seq<NodeModel>,
    k: int,
    node: NodeModel,
    above: Seq<GroupModel>,
    depth: nat,
    j: int,
)
    requires
        0 <= k < forest.len(),
        first_problem(forest, depth) is None,
        node_problem(node, depth) is None,
        place_ids(group_part(node, above)) == place_ids(group_part(forest[k], above)),
        0 <= j < project_part(forest[k], above).len(),
        place_paths_of(project_part(node, above)) == place_paths_of(
            project_part(forest[k], above),
        ).remove(j),
    ensures
        first_problem(forest.update(k, node), depth) is None,
        place_ids(group_places(forest.update(k, node), above)) == place_ids(
            group_places(forest, above),
        ),
        exists|i: int|
            0 <= i < project_places(forest, above).len() && place_paths_of(
                project_places(forest.update(k, node), above),
            ) == #[trigger] place_paths_of(project_places(forest, above)).remove(i)
                && place_paths_of(project_places(forest, above))[i] == place_paths_of(
                project_part(forest[k], above),
            )[j],
{
    let rest = forest.update(k, node);
    lemma_split_at(forest, k, above);
    lemma_split_at(rest, k, above);
    let a = forest.take(k);
    let b = forest.skip(k + 1);
    assert(rest.take(k) =~= a);
    assert(rest.skip(k + 1) =~= b);
    assert(rest =~= (a + seq![node]) + b);
    assert(forest =~= (a + seq![forest[k]]) + b);
    lemma_first_problem_append(a + seq![forest[k]], b, depth);
    lemma_first_problem_append(a, seq![forest[k]], depth);
    lemma_first_problem_append(a + seq![node], b, depth);
    lemma_first_problem_append(a, seq![node], depth);
    lemma_first_problem_single(node, depth);
    lemma_first_problem_single(forest[k], depth);
    let ga = group_places(a, above);
    let gb = group_places(b, above);
    assert(place_ids(group_places(rest, above)) =~= place_ids(ga) + place_ids(group_part(node, above))
        + place_ids(gb));
    assert(place_ids(group_places(forest, above)) =~= place_ids(ga) + place_ids(
        group_part(forest[k], above),
    ) + place_ids(gb));
    let pa = place_paths_of(project_places(a, above));
    let pb = place_paths_of(project_places(b, above));
    assert(place_paths_of(project_places(rest, above)) =~= pa + place_paths_of(
        project_part(node, above),
    ) + pb);
    assert(place_paths_of(project_places(forest, above)) =~= pa + place_paths_of(
        project_part(forest[k], above),
    ) + pb);
    assert(place_paths_of(project_places(rest, above)) =~= place_paths_of(
        project_places(forest, above),
    ).remove(pa.len() + j));
    assert(place_paths_of(project_places(forest, above))[pa.len() + j] == place_paths_of(
        project_part(forest[k], above),
    )[j]);
}

/// Taking a project out of a forest, at any depth, keeps its groups, their
/// nesting and names, and every other project in order.
proof fn lemma_detach_project_parts(forest: Seq<NodeModel>, path: Seq<u8>, above: Seq<GroupModel>, depth: nat)
    requires
        detach_project(forest, path) is Some,
        first_problem(forest, depth) is None,
    ensures
        first_problem((detach_project(forest, path)->0).0, depth) is None,
        place_ids(group_places((detach_project(forest, path)->0).0, above)) == place_ids(
            group_places(forest, above),
        ),
        exists|j: int|
            0 <= j < project_places(forest, above).len() && place_paths_of(
                project_places((detach_project(forest, path)->0).0, above),
            ) == #[trigger] place_paths_of(project_places(forest, above)).remove(j)
                && place_paths_of(project_places(forest, above))[j] == (detach_project(
                forest,
                path,
            )->0).1,
        same_path((detach_project(forest, path)->0).1, path),
    decreases forest,
{
    let direct = project_at(path);
    let below = project_holder_below(path);
    let rest = (detach_project(forest, path)->0).0;
    lemma_first_problem_split(forest, depth);
    if has_first(forest, direct) {
        let k = first_index(forest, direct);
        assert(is_first(forest, direct, k));
        assert(rest == forest.remove(k));
        let a = forest.take(k);
        let b = forest.skip(k + 1);
        let one = seq![forest[k]];
        lemma_split_at(forest, k, above);
        lemma_remove_top_project(forest, k, above);
        assert(rest =~= a + b);
        assert(forest =~= (a + one) + b);
        lemma_first_problem_append(a + one, b, depth);
        lemma_first_problem_append(a, one, depth);
        lemma_first_problem_append(a, b, depth);
        lemma_project_places_append(a, b, above);
        let pa = project_places(a, above);
        let mid = project_part(forest[k], above);
        assert(mid.len() == 1);
        let all = place_paths_of(project_places(forest, above));
        assert(place_paths_of(project_places(rest, above)) =~= all.remove(pa.len() as int));
        assert(all[pa.len() as int] == mid[0].path);
    } else {
        let k = first_index(forest, below);
        assert(is_first(forest, below, k));
        let g = forest[k]->Group_0;
        assert(forest[k] == NodeModel::Group(g));
        let inner = (detach_project(g.children, path)->0).0;
        let g2 = GroupModel { children: inner, ..g };
        let node2 = NodeModel::Group(g2);
        assert(rest == forest.update(k, node2));
        assert(node_problem(forest[k], depth) is None);
        lemma_detach_project_parts(g.children, path, above.push(g), depth + 1);
        assert(node_problem(node2, depth) is None);
        lemma_similar_refl(inner);
        lemma_similar_places(inner, inner, above.push(g2), above.push(g));
        assert(place_ids(group_part(node2, above)) =~= seq![g.id] + place_ids(
            group_places(inner, above.push(g2)),
        ));
        assert(place_ids(group_part(forest[k], above)) =~= seq![g.id] + place_ids(
            group_places(g.children, above.push(g)),
        ));
        let inner_before = place_paths_of(project_places(g.children, above.push(g)));
        let j = choose|j: int|
            0 <= j < project_places(g.children, above.push(g)).len() && place_paths_of(
                project_places(inner, above.push(g)),
            ) == #[trigger] inner_before.remove(j) && inner_before[j] == (detach_project(
                g.children,
                path,
            )->0).1;
        assert((detach_project(forest, path)->0).1 == (detach_project(g.children, path)->0).1);
        assert(project_part(node2, above) == project_places(inner, above.push(g2)));
        assert(project_part(forest[k], above) == project_places(g.children, above.push(g)));
        lemma_replace_node(forest, k, node2, above, depth, j);
    }
}

/// A forest without problems has none in its first nodes or its last one.
proof fn lemma_first_problem_split(forest: Seq<NodeModel>, depth: nat)
    ensures
        first_problem(forest, depth) is None ==> forall|i: int|
            0 <= i < forest.len() ==> node_problem(#[trigger] forest[i], depth) is None,
    decreases forest.len(),
{
    if forest.len() > 0 {
        lemma_first_problem_split(forest.drop_last(), depth);
        if first_problem(forest, depth) is None {
            assert forall|i: int| 0 <= i < forest.len() implies node_problem(
                #[trigger] forest[i],
                depth,
            ) is None by {
                if i < forest.len() - 1 {
                    assert(forest.drop_last()[i] == forest[i]);
                }
            }
        }
    }
}

/// Forgetting a project keeps a valid project list valid: every group stays
/// as it was, and the other projects keep their order.
pub proof fn law_forget_keeps_the_list_valid(forest: Seq<NodeModel>, path: Seq<u8>)
    requires
        validation_error(forest) is None,
    ensures
        detach_project(forest, path) matches Some((rest, _)) ==> validation_error(rest) is None,
{
    if detach_project(forest, path) is Some {
        let e = Seq::<GroupModel>::empty();
        let rest = (detach_project(forest, path)->0).0;
        lemma_detach_project_parts(forest, path, e, 0);
        let j = choose|j: int|
            0 <= j < project_places(forest, e).len() && place_paths_of(project_places(rest, e))
                == #[trigger] place_paths_of(project_places(forest, e)).remove(j)
                && place_paths_of(project_places(forest, e))[j] == (detach_project(
                forest,
                path,
            )->0).1;
        assert(group_ids(forest) == place_ids(group_places(forest, e)));
        assert(group_ids(rest) == place_ids(group_places(rest, e)));
        assert(project_paths(forest) == place_paths_of(project_places(forest, e)));
        assert(project_paths(rest) == place_paths_of(project_places(rest, e)));
        lemma_unique_remove(project_paths(forest), j);
        assert(place_ids(group_places(rest, e)).len() == group_places(rest, e).len());
        assert(place_ids(group_places(forest, e)).len() == group_places(forest, e).len());
        assert(project_paths(rest).len() == project_places(rest, e).len());
        assert(project_paths(forest).len() == project_places(forest, e).len());
    }
}

/// A forest without problems one level down has none at its own level.
proof fn lemma_first_problem_shallower(forest: Seq<NodeModel>, depth: nat)
    requires
        first_problem(forest, depth + 1) is None,
    ensures
        first_problem(forest, depth) is None,
    decreases forest,
{
    if forest.len() > 0 {
        lemma_first_problem_shallower(forest.drop_last(), depth);
        let n = forest.last();
        assert(node_problem(n, depth + 1) is None);
        if let NodeModel::Group(g) = n {
            lemma_first_problem_shallower(g.children, depth + 1);
        }
        assert(node_problem(n, depth) is None);
    }
}

/// Putting `node` in place of node `k` of a forest without problems: when
/// the new node has none, lacks one of the groups and keeps the projects,
/// so does the forest.
proof fn lemma_replace_group_node(
    forest: Seq<NodeModel>,
    k: int,
    node: NodeModel,
    above: Seq<GroupModel>,
    depth: nat,
    j: int,
)
    requires
        0 <= k < forest.len(),
        first_problem(forest, depth) is None,
        node_problem(node, depth) is None,
        0 <= j < group_part(forest[k], above).len(),
        place_ids(group_part(node, above)) == place_ids(group_part(forest[k], above)).remove(j),
        place_paths_of(project_part(node, above)) == place_paths_of(project_part(forest[k], above)),
    ensures
        first_problem(forest.update(k, node), depth) is None,
        exists|i: int|
            0 <= i < group_places(forest, above).len() && place_ids(
                group_places(forest.update(k, node), above),
            ) == #[trigger] place_ids(group_places(forest, above)).remove(i) && place_ids(
                group_places(forest, above),
            )[i] == place_ids(group_part(forest[k], above))[j],
        place_paths_of(project_places(forest.update(k, node), above)) == place_paths_of(
            project_places(forest, above),
        ),
{
    let rest = forest.update(k, node);
    lemma_split_at(forest, k, above);
    lemma_split_at(rest, k, above);
    let a = forest.take(k);
    let b = forest.skip(k + 1);
    assert(rest.take(k) =~= a);
    assert(rest.skip(k + 1) =~= b);
    assert(rest =~= (a + seq![node]) + b);
    assert(forest =~= (a + seq![forest[k]]) + b);
    lemma_first_problem_append(a + seq![forest[k]], b, depth);
    lemma_first_problem_append(a, seq![forest[k]], depth);
    lemma_first_problem_append(a + seq![node], b, depth);
    lemma_first_problem_append(a, seq![node], depth);
    lemma_first_problem_single(node, depth);
    lemma_first_problem_single(forest[k], depth);
    let ia = place_ids(group_places(a, above));
    let ib = place_ids(group_places(b, above));
    assert(place_ids(group_places(rest, above)) =~= ia + place_ids(group_part(node, above)) + ib);
    assert(place_ids(group_places(forest, above)) =~= ia + place_ids(group_part(forest[k], above))
        + ib);
    assert(place_ids(group_places(rest, above)) =~= place_ids(group_places(forest, above)).remove(
        ia.len() + j,
    ));
    assert(place_ids(group_places(forest, above))[ia.len() + j] == place_ids(
        group_part(forest[k], above),
    )[j]);
    let pa = place_paths_of(project_places(a, above));
    let pb = place_paths_of(project_places(b, above));
    assert(place_paths_of(project_places(rest, above)) =~= pa + place_paths_of(
        project_part(node, above),
    ) + pb);
    assert(place_paths_of(project_places(forest, above)) =~= pa + place_paths_of(
        project_part(forest[k], above),
    ) + pb);
}

/// Removing a group, at any depth, moves what it held one level up and
/// keeps every other group and every project in order.
proof fn lemma_remove_group_parts(forest: Seq<NodeModel>, id: u32, above: Seq<GroupModel>, depth: nat)
    requires
        remove_group(forest, id) is Some,
        first_problem(forest, depth) is None,
    ensures
        first_problem(remove_group(forest, id)->0, depth) is None,
        exists|j: int|
            0 <= j < group_places(forest, above).len() && place_ids(
                group_places(remove_group(forest, id)->0, above),
            ) == #[trigger] place_ids(group_places(forest, above)).remove(j) && place_ids(
                group_places(forest, above),
            )[j] == id,
        place_paths_of(project_places(remove_group(forest, id)->0, above)) == place_paths_of(
            project_places(forest, above),
        ),
    decreases forest,
{
    let direct = group_with(id);
    let below = group_holder_below(id);
    let rest = remove_group(forest, id)->0;
    lemma_first_problem_split(forest, depth);
    if has_first(forest, direct) {
        let k = first_index(forest, direct);
        assert(is_first(forest, direct, k));
        let g = forest[k]->Group_0;
        assert(forest[k] == NodeModel::Group(g));
        let a = forest.take(k);
        let b = forest.skip(k + 1);
        let c = g.children;
        assert(rest == a + c + b);
        lemma_split_at(forest, k, above);
        assert(forest =~= (a + seq![forest[k]]) + b);
        lemma_first_problem_append(a + seq![forest[k]], b, depth);
        lemma_first_problem_append(a, seq![forest[k]], depth);
        lemma_first_problem_single(forest[k], depth);
        assert(node_problem(forest[k], depth) is None);
        lemma_first_problem_shallower(c, depth);
        lemma_first_problem_append(a + c, b, depth);
        lemma_first_problem_append(a, c, depth);
        crate::library_model::lemma_group_places_append(a + c, b, above);
        crate::library_model::lemma_group_places_append(a, c, above);
        lemma_project_places_append(a + c, b, above);
        lemma_project_places_append(a, c, above);
        lemma_similar_refl(c);
        lemma_similar_places(c, c, above, above.push(g));
        let ia = place_ids(group_places(a, above));
        let ib = place_ids(group_places(b, above));
        assert(place_ids(group_part(forest[k], above)) =~= seq![g.id] + place_ids(
            group_places(c, above.push(g)),
        ));
        assert(place_ids(group_places(rest, above)) =~= ia + place_ids(group_places(c, above)) + ib);
        assert(place_ids(group_places(forest, above)) =~= ia + place_ids(
            group_part(forest[k], above),
        ) + ib);
        assert(place_ids(group_places(rest, above)) =~= place_ids(group_places(forest, above)).remove(
            ia.len() as int,
        ));
        assert(place_ids(group_places(forest, above))[ia.len() as int] == g.id);
        assert(project_part(forest[k], above) == project_places(c, above.push(g)));
        assert(place_paths_of(project_places(rest, above)) =~= place_paths_of(
            project_places(a, above),
        ) + place_paths_of(project_places(c, above)) + place_paths_of(project_places(b, above)));
        assert(place_paths_of(project_places(forest, above)) =~= place_paths_of(
            project_places(a, above),
        ) + place_paths_of(project_part(forest[k], above)) + place_paths_of(
            project_places(b, above),
        ));
    } else {
        let k = first_index(forest, below);
        assert(is_first(forest, below, k));
        let g = forest[k]->Group_0;
        assert(forest[k] == NodeModel::Group(g));
        let inner = remove_group(g.children, id)->0;
        let g2 = GroupModel { children: inner, ..g };
        let node2 = NodeModel::Group(g2);
        assert(rest == forest.update(k, node2));
        assert(node_problem(forest[k], depth) is None);
        lemma_remove_group_parts(g.children, id, above.push(g), depth + 1);
        assert(node_problem(node2, depth) is None);
        lemma_similar_refl(inner);
        lemma_similar_places(inner, inner, above.push(g2), above.push(g));
        let inner_before = place_ids(group_places(g.children, above.push(g)));
        let j = choose|j: int|
            0 <= j < group_places(g.children, above.push(g)).len() && place_ids(
                group_places(inner, above.push(g)),
            ) == #[trigger] inner_before.remove(j) && inner_before[j] == id;
        assert(place_ids(group_part(node2, above)) =~= seq![g.id] + place_ids(
            group_places(inner, above.push(g2)),
        ));
        assert(place_ids(group_part(forest[k], above)) =~= seq![g.id] + inner_before);
        assert(place_ids(group_part(node2, above)) =~= place_ids(group_part(forest[k], above)).remove(
            j + 1,
        ));
        assert(project_part(node2, above) == project_places(inner, above.push(g2)));
        assert(project_part(forest[k], above) == project_places(g.children, above.push(g)));
        lemma_replace_group_node(forest, k, node2, above, depth, j + 1);
    }
}

/// Identifiers that are distinct stay distinct when one of them is taken
/// out.
proof fn lemma_unique_ids_remove(ids: Seq<u32>, j: int)
    requires
        unique_ids(ids),
        0 <= j < ids.len(),
    ensures
        unique_ids(ids.remove(j)),
{
    let kept = ids.remove(j);
    assert forall|x: int, y: int| 0 <= x < y < kept.len() implies kept[x] != kept[y] by {
        let xx = if x < j {
            x
        } else {
            x + 1
        };
        let yy = if y < j {
            y
        } else {
            y + 1
        };
        assert(kept[x] == ids[xx]);
        assert(kept[y] == ids[yy]);
    }
}

/// Removing a group keeps a valid project list valid: what it held moves
/// up one level, so nothing nests deeper, and every other group and every
/// project stays.
pub proof fn law_remove_group_keeps_the_list_valid(forest: Seq<NodeModel>, id: u32)
    requires
        validation_error(forest) is None,
    ensures
        remove_group(forest, id) matches Some(rest) ==> validation_error(rest) is None,
{
    if remove_group(forest, id) is Some {
        let e = Seq::<GroupModel>::empty();
        let rest = remove_group(forest, id)->0;
        lemma_remove_group_parts(forest, id, e, 0);
        let j = choose|j: int|
            0 <= j < group_places(forest, e).len() && place_ids(group_places(rest, e))
                == #[trigger] place_ids(group_places(forest, e)).remove(j) && place_ids(
                group_places(forest, e),
            )[j] == id;
        assert(group_ids(forest) == place_ids(group_places(forest, e)));
        assert(group_ids(rest) == place_ids(group_places(rest, e)));
        assert(project_paths(forest) == place_paths_of(project_places(forest, e)));
        assert(project_paths(rest) == place_paths_of(project_places(rest, e)));
        lemma_unique_ids_remove(group_ids(forest), j);
        assert(group_ids(rest).len() == group_places(rest, e).len());
        assert(group_ids(forest).len() == group_places(forest, e).len());
        assert(project_paths(rest).len() == project_places(rest, e).len());
        assert(project_paths(forest).len() == project_places(forest, e).len());
    }
}

/// The first holder of a group decides where a search from any enclosing
/// groups finds it.
proof fn lemma_found_at(forest: Seq<NodeModel>, id: u32, k: int, above: Seq<GroupModel>)
    requires
        is_first(forest, group_holder(id), k),
    ensures
        first_place(group_places(forest, above), id) == first_place(group_part(forest[k], above), id),
        first_place(group_places(forest, above), id) is Some,
{
    let e = Seq::<GroupModel>::empty();
    let a = forest.take(k);
    lemma_split_at(forest, k, above);
    lemma_holds_iff(a, id, seq![]);
    assert forall|j: int| 0 <= j < a.len() implies !holds_group(#[trigger] a[j], id) by {
        assert(a[j] == forest[j]);
        assert(!group_holder(id)(forest[j]));
    }
    lemma_search_indep(a, above, e, id, seq![]);
    assert(first_place(group_places(a, above), id) is None);
    assert(group_holder(id)(forest[k]));
    let g = forest[k]->Group_0;
    lemma_group_part_first(g, above, id);
    lemma_search_indep(g.children, above.push(g), e, id, seq![]);
    lemma_first_place_append(group_places(a, above), group_part(forest[k], above), id);
    lemma_first_place_append(
        group_places(a, above) + group_part(forest[k], above),
        group_places(forest.skip(k + 1), above),
        id,
    );
}

/// Putting a node without problems in place of node `k` keeps a forest
/// without problems.
proof fn lemma_replace_problem(forest: Seq<NodeModel>, k: int, node: NodeModel, depth: nat)
    requires
        0 <= k < forest.len(),
        first_problem(forest, depth) is None,
        node_problem(node, depth) is None,
    ensures
        first_problem(forest.update(k, node), depth) is None,
{
    let rest = forest.update(k, node);
    let a = forest.take(k);
    let b = forest.skip(k + 1);
    assert(rest =~= (a + seq![node]) + b);
    assert(forest =~= (a + seq![forest[k]]) + b);
    lemma_first_problem_append(a + seq![forest[k]], b, depth);
    lemma_first_problem_append(a, seq![forest[k]], depth);
    lemma_first_problem_append(a + seq![node], b, depth);
    lemma_first_problem_append(a, seq![node], depth);
    lemma_first_problem_single(node, depth);
}

/// Putting a node with the same project paths in place of node `k` keeps
/// the paths of the forest.
proof fn lemma_replace_paths(forest: Seq<NodeModel>, k: int, node: NodeModel, above: Seq<GroupModel>)
    requires
        0 <= k < forest.len(),
        place_paths_of(project_part(node, above)) == place_paths_of(project_part(forest[k], above)),
    ensures
        place_paths_of(project_places(forest.update(k, node), above)) == place_paths_of(
            project_places(forest, above),
        ),
{
    let rest = forest.update(k, node);
    lemma_split_at(forest, k, above);
    lemma_split_at(rest, k, above);
    assert(rest.take(k) =~= forest.take(k));
    assert(rest.skip(k + 1) =~= forest.skip(k + 1));
    let pa = place_paths_of(project_places(forest.take(k), above));
    let pb = place_paths_of(project_places(forest.skip(k + 1), above));
    assert(place_paths_of(project_places(rest, above)) =~= pa + place_paths_of(
        project_part(node, above),
    ) + pb);
    assert(place_paths_of(project_places(forest, above)) =~= pa + place_paths_of(
        project_part(forest[k], above),
    ) + pb);
}

/// An empty group at the depth where a group is added: appending it keeps a
/// forest without problems, and keeps its projects.
proof fn lemma_append_parts(forest: Seq<NodeModel>, id: u32, node: NodeModel, above: Seq<GroupModel>, depth: nat)
    requires
        above.len() == depth,
        first_problem(forest, depth) is None,
        first_place(group_places(forest, above), id) is Some,
        node_problem(node, first_place(group_places(forest, above), id)->0.above.len() + 1) is None,
        node is Group,
        node->Group_0.children.len() == 0,
    ensures
        first_problem(edit_forest(forest, id, GroupEdit::Append(node)), depth) is None,
        place_paths_of(project_places(edit_forest(forest, id, GroupEdit::Append(node)), above))
            == place_paths_of(project_places(forest, above)),
    decreases forest,
{
    let e = Seq::<GroupModel>::empty();
    let pred = group_holder(id);
    lemma_search_indep(forest, above, e, id, seq![]);
    lemma_holds_iff(forest, id, seq![]);
    let some_k = choose|k: int| 0 <= k < forest.len() && holds_group(#[trigger] forest[k], id);
    assert(pred(forest[some_k]));
    lemma_least(forest, pred, some_k);
    let k = first_index(forest, pred);
    assert(is_first(forest, pred, k));
    lemma_found_at(forest, id, k, above);
    lemma_first_problem_split(forest, depth);
    let g = forest[k]->Group_0;
    assert(forest[k] == NodeModel::Group(g));
    let edit = GroupEdit::Append(node);
    let n2 = edit_node(forest[k], id, edit);
    assert(edit_forest(forest, id, edit) == forest.update(k, n2));
    assert(node_problem(forest[k], depth) is None);
    lemma_group_part_first(g, above, id);
    let empty_children = node->Group_0.children;
    assert(project_part(node, above.push(g)) =~= Seq::<ProjectPlace>::empty()) by {
        assert(project_places(empty_children, above.push(g).push(node->Group_0)) =~= Seq::<
            ProjectPlace,
        >::empty());
    }
    if g.id == id {
        let g2 = GroupModel { children: g.children.push(node), ..g };
        assert(n2 == NodeModel::Group(g2));
        assert(g.children.push(node).drop_last() =~= g.children);
        assert(first_problem(g.children.push(node), depth + 1) is None);
        assert(node_problem(n2, depth) is None);
        lemma_similar_refl(g.children);
        lemma_similar_places(g.children, g.children, above.push(g2), above.push(g));
        assert(project_places(g.children.push(node), above.push(g2)) =~= project_places(
            g.children,
            above.push(g2),
        ) + project_part(node, above.push(g2)));
        assert(project_part(node, above.push(g2)) =~= Seq::<ProjectPlace>::empty()) by {
            assert(project_places(empty_children, above.push(g2).push(node->Group_0)) =~= Seq::<
                ProjectPlace,
            >::empty());
        }
        assert(place_paths_of(project_part(n2, above)) =~= place_paths_of(
            project_part(forest[k], above),
        ));
    } else {
        let inner = edit_forest(g.children, id, edit);
        let g2 = GroupModel { children: inner, ..g };
        assert(n2 == NodeModel::Group(g2));
        lemma_append_parts(g.children, id, node, above.push(g), depth + 1);
        assert(node_problem(n2, depth) is None);
        lemma_similar_refl(inner);
        lemma_similar_places(inner, inner, above.push(g2), above.push(g));
        assert(place_paths_of(project_part(n2, above)) == place_paths_of(
            project_part(forest[k], above),
        ));
    }
    lemma_replace_problem(forest, k, n2, depth);
    lemma_replace_paths(forest, k, n2, above);
}

/// Creating a group keeps a valid project list valid: the new group is
/// empty, has a name a group may have, sits no deeper than five levels and
/// takes an identifier no other group has. The identifier is one past the
/// largest, so a list whose largest identifier is the largest `u32` is left
/// out: its new group would share that identifier.
pub proof fn law_create_group_keeps_the_list_valid(forest: Seq<NodeModel>, parent: Option<u32>, name: Seq<char>)
    requires
        validation_error(forest) is None,
        max_group_id(group_places(forest, seq![])) < u32::MAX,
    ensures
        create_group(forest, parent, name) matches Ok((_, after)) ==> validation_error(after) is None,
{
    broadcast use vstd::seq_lib::group_to_multiset_ensures;

    if create_group(forest, parent, name) is Ok {
        let e = Seq::<GroupModel>::empty();
        let id = next_group_id(forest);
        let group = GroupModel { id: id, name: trim(name), collapsed: false, children: seq![] };
        let node = NodeModel::Group(group);
        let after = attach(forest, node, parent);
        assert(create_group(forest, parent, name)->Ok_0.1 == after);
        lemma_trim_idempotent(name);
        assert(group_name_refusal(trim(name)) is None);
        crate::library_laws::law_create_group_keeps_ids_distinct(forest, parent, name);
        assert(group_ids(after).to_multiset().len() == group_ids(forest).to_multiset().len() + 1);
        assert(group_ids(after).len() == group_places(after, e).len());
        assert(group_ids(forest).len() == group_places(forest, e).len());
        assert(project_places(group.children, e.push(group)) =~= Seq::<ProjectPlace>::empty());
        assert(first_problem(group.children, 1) is None);
        match parent {
            Some(p) => {
                assert(find_group(forest, p) is Some);
                let place = find_group(forest, p)->0;
                assert(place.above.len() + 1 + 1 <= 5);
                assert(first_problem(group.children, place.above.len() + 2) is None);
                assert(node_problem(node, place.above.len() + 1) is None);
                lemma_append_parts(forest, p, node, e, 0);
                assert(after == edit_forest(forest, p, GroupEdit::Append(node)));
            },
            None => {
                assert(after == forest.push(node));
                assert(after.drop_last() =~= forest);
                assert(node_problem(node, 0) is None);
                assert(project_places(after, e) =~= project_places(forest, e) + project_part(node, e));
                assert(place_paths_of(project_places(after, e)) =~= place_paths_of(
                    project_places(forest, e),
                ));
            },
        }
        assert(project_paths(forest) == place_paths_of(project_places(forest, e)));
        assert(project_paths(after) == place_paths_of(project_places(after, e)));
        assert(project_paths(after).len() == project_places(after, e).len());
        assert(project_paths(forest).len() == project_places(forest, e).len());
    }
}

/// Every project of a forest without problems has an absolute path.
proof fn lemma_paths_absolute(forest: Seq<NodeModel>, above: Seq<GroupModel>, depth: nat)
    requires
        first_problem(forest, depth) is None,
    ensures
        forall|i: int|
            0 <= i < project_places(forest, above).len() ==> is_absolute(
                #[trigger] project_places(forest, above)[i].path,
            ),
    decreases forest,
{
    if forest.len() > 0 {
        let rest = forest.drop_last();
        lemma_paths_absolute(rest, above, depth);
        let n = forest.last();
        assert(node_problem(n, depth) is None);
        let part = project_part(n, above);
        match n {
            NodeModel::Group(g) => {
                lemma_paths_absolute(g.children, above.push(g), depth + 1);
                assert(part == project_places(g.children, above.push(g)));
            },
            NodeModel::Project(q) => {
                assert(part =~= seq![ProjectPlace { path: q, above: above }]);
            },
        }
        assert(forall|t: int| 0 <= t < part.len() ==> is_absolute(#[trigger] part[t].path));
        let all = project_places(forest, above);
        assert(all == project_places(rest, above) + part);
        assert forall|i: int| 0 <= i < all.len() implies is_absolute(#[trigger] all[i].path) by {
            if i < project_places(rest, above).len() {
                assert(all[i] == project_places(rest, above)[i]);
            } else {
                assert(all[i] == part[i - project_places(rest, above).len()]);
            }
        }
    }
}

/// Appending a project with an absolute path to a group keeps a forest
/// without problems, keeps its groups, and puts the path among the others.
#[verifier::rlimit(60)]
proof fn lemma_append_project(forest: Seq<NodeModel>, id: u32, path: Seq<u8>, above: Seq<GroupModel>, depth: nat)
    requires
        is_absolute(path),
        first_problem(forest, depth) is None,
        first_place(group_places(forest, above), id) is Some,
    ensures
        first_problem(edit_forest(forest, id, GroupEdit::Append(NodeModel::Project(path))), depth)
            is None,
        place_ids(group_places(edit_forest(forest, id, GroupEdit::Append(NodeModel::Project(path))), above))
            == place_ids(group_places(forest, above)),
        exists|i: int|
            0 <= i <= project_places(forest, above).len() && place_paths_of(
                project_places(
                    edit_forest(forest, id, GroupEdit::Append(NodeModel::Project(path))),
                    above,
                ),
            ) == #[trigger] place_paths_of(project_places(forest, above)).insert(i, path),
    decreases forest,
{
    let e = Seq::<GroupModel>::empty();
    let pred = group_holder(id);
    let node = NodeModel::Project(path);
    lemma_search_indep(forest, above, e, id, seq![]);
    lemma_holds_iff(forest, id, seq![]);
    let some_k = choose|k: int| 0 <= k < forest.len() && holds_group(#[trigger] forest[k], id);
    assert(pred(forest[some_k]));
    lemma_least(forest, pred, some_k);
    let k = first_index(forest, pred);
    assert(is_first(forest, pred, k));
    lemma_found_at(forest, id, k, above);
    lemma_first_problem_split(forest, depth);
    let g = forest[k]->Group_0;
    assert(forest[k] == NodeModel::Group(g));
    let edit = GroupEdit::Append(node);
    let n2 = edit_node(forest[k], id, edit);
    let after = edit_forest(forest, id, edit);
    assert(after == forest.update(k, n2));
    assert(node_problem(forest[k], depth) is None);
    lemma_group_part_first(g, above, id);
    let g2 = if g.id == id {
        GroupModel { children: g.children.push(node), ..g }
    } else {
        GroupModel { children: edit_forest(g.children, id, edit), ..g }
    };
    assert(n2 == NodeModel::Group(g2));
    let before_inner = place_paths_of(project_places(g.children, above.push(g)));
    let mut j: int = 0;
    if g.id == id {
        assert(g.children.push(node).drop_last() =~= g.children);
        assert(node_problem(node, depth + 1) is None);
        assert(first_problem(g.children.push(node), depth + 1) is None);
        lemma_similar_refl(g.children);
        lemma_similar_places(g.children, g.children, above.push(g2), above.push(g));
        lemma_group_places_push(g.children, node, above.push(g2));
        assert(project_places(g.children.push(node), above.push(g2)) =~= project_places(
            g.children,
            above.push(g2),
        ) + project_part(node, above.push(g2)));
        j = before_inner.len() as int;
        assert(place_paths_of(project_places(g2.children, above.push(g2))) =~= before_inner.insert(
            j,
            path,
        ));
    } else {
        let inner = edit_forest(g.children, id, edit);
        lemma_append_project(g.children, id, path, above.push(g), depth + 1);
        lemma_similar_refl(inner);
        lemma_similar_places(inner, inner, above.push(g2), above.push(g));
        j = choose|i: int|
            0 <= i <= project_places(g.children, above.push(g)).len() && place_paths_of(
                project_places(inner, above.push(g)),
            ) == #[trigger] before_inner.insert(i, path);
    }
    assert(node_problem(n2, depth) is None);
    assert(place_ids(group_part(n2, above)) =~= seq![g.id] + place_ids(
        group_places(g2.children, above.push(g2)),
    ));
    assert(place_ids(group_part(forest[k], above)) =~= seq![g.id] + place_ids(
        group_places(g.children, above.push(g)),
    ));
    assert(place_ids(group_part(n2, above)) == place_ids(group_part(forest[k], above)));
    lemma_replace_problem(forest, k, n2, depth);
    lemma_split_at(forest, k, above);
    lemma_split_at(after, k, above);
    assert(after.take(k) =~= forest.take(k));
    assert(after.skip(k + 1) =~= forest.skip(k + 1));
    let ia = place_ids(group_places(forest.take(k), above));
    let ib = place_ids(group_places(forest.skip(k + 1), above));
    assert(place_ids(group_places(after, above)) =~= ia + place_ids(group_part(n2, above)) + ib);
    assert(place_ids(group_places(forest, above)) =~= ia + place_ids(group_part(forest[k], above))
        + ib);
    let pa = place_paths_of(project_places(forest.take(k), above));
    let pb = place_paths_of(project_places(forest.skip(k + 1), above));
    assert(project_part(n2, above) == project_places(g2.children, above.push(g2)));
    assert(project_part(forest[k], above) == project_places(g.children, above.push(g)));
    assert(place_paths_of(project_places(after, above)) =~= pa + before_inner.insert(j, path) + pb);
    assert(place_paths_of(project_places(forest, above)) =~= pa + before_inner + pb);
    assert(place_paths_of(project_places(after, above)) =~= place_paths_of(
        project_places(forest, above),
    ).insert(pa.len() + j, path));
}

proof fn lemma_group_places_push(forest: Seq<NodeModel>, node: NodeModel, above: Seq<GroupModel>)
    ensures
        project_places(forest.push(node), above) == project_places(forest, above) + project_part(
            node,
            above,
        ),
        group_places(forest.push(node), above) == group_places(forest, above) + group_part(
            node,
            above,
        ),
{
    assert(forest.push(node).drop_last() =~= forest);
}

/// Distinct paths stay distinct when one of them moves to another place.
proof fn lemma_unique_move(paths: Seq<Seq<u8>>, j: int, i: int)
    requires
        unique_paths(paths),
        0 <= j < paths.len(),
        0 <= i < paths.len(),
    ensures
        unique_paths(paths.remove(j).insert(i, paths[j])),
{
    let rest = paths.remove(j);
    let after = rest.insert(i, paths[j]);
    crate::paths::lemma_same_path_is_equivalence();
    assert forall|x: int| 0 <= x < after.len() implies #[trigger] after[x] == paths[origin(
        x,
        i,
        j,
    )] && 0 <= origin(x, i, j) < paths.len() by {
        if x < i {
            assert(after[x] == rest[x]);
        } else if x > i {
            assert(after[x] == rest[x - 1]);
        }
    }
    assert forall|x: int, y: int| 0 <= x < y < after.len() implies !same_path(
        #[trigger] after[x],
        #[trigger] after[y],
    ) by {
        let ox = origin(x, i, j);
        let oy = origin(y, i, j);
        assert(after[x] == paths[ox]);
        assert(after[y] == paths[oy]);
        assert(ox != oy);
        if ox < oy {
            assert(!same_path(paths[ox], paths[oy]));
        } else {
            assert(!same_path(paths[oy], paths[ox]));
        }
    }
}

/// Where entry `x` of a list came from after the entry at `j` moved to `i`.
spec fn origin(x: int, i: int, j: int) -> int {
    let r = if x < i {
        x
    } else if x == i {
        -1
    } else {
        x - 1
    };
    if r == -1 {
        j
    } else if r < j {
        r
    } else {
        r + 1
    }
}

/// Moving a project keeps a valid project list valid: its path stays
/// absolute and in one place, and every group stays as it was.
pub proof fn law_move_project_keeps_the_list_valid(forest: Seq<NodeModel>, path: Seq<u8>, into: Option<u32>)
    requires
        validation_error(forest) is None,
    ensures
        move_project(forest, path, into) matches Ok(after) ==> validation_error(after) is None,
{
    if move_project(forest, path, into) is Ok {
        let e = Seq::<GroupModel>::empty();
        let (rest, found) = detach_project(forest, path)->0;
        lemma_detach_project_parts(forest, path, e, 0);
        let paths = place_paths_of(project_places(forest, e));
        let j = choose|j: int|
            0 <= j < project_places(forest, e).len() && place_paths_of(project_places(rest, e))
                == #[trigger] paths.remove(j) && paths[j] == found;
        lemma_paths_absolute(forest, e, 0);
        assert(paths[j] == project_places(forest, e)[j].path);
        assert(is_absolute(found));
        let node = NodeModel::Project(found);
        let after = attach(rest, node, into);
        assert(move_project(forest, path, into)->Ok_0 == after);
        assert(project_paths(forest) == paths);
        assert(group_ids(forest) == place_ids(group_places(forest, e)));
        assert(group_ids(rest) == place_ids(group_places(rest, e)));
        let mut i: int = 0;
        if into is Some && find_group(rest, into->0) is Some {
            let id = into->0;
            assert(after == edit_forest(rest, id, GroupEdit::Append(node)));
            lemma_append_project(rest, id, found, e, 0);
            i = choose|i: int|
                0 <= i <= project_places(rest, e).len() && place_paths_of(
                    project_places(after, e),
                ) == #[trigger] place_paths_of(project_places(rest, e)).insert(i, found);
        } else {
            assert(after == rest.push(node));
            lemma_group_places_push(rest, node, e);
            assert(after.drop_last() =~= rest);
            assert(node_problem(node, 0) is None);
            assert(group_part(node, e) =~= Seq::<GroupPlace>::empty());
            assert(place_ids(group_places(after, e)) =~= place_ids(group_places(rest, e)));
            i = project_places(rest, e).len() as int;
            assert(place_paths_of(project_places(after, e)) =~= place_paths_of(
                project_places(rest, e),
            ).insert(i, found));
        }
        assert(project_paths(after) == place_paths_of(project_places(after, e)));
        assert(group_ids(after) == place_ids(group_places(after, e)));
        lemma_unique_move(paths, j, i);
        assert(project_paths(after) == paths.remove(j).insert(i, paths[j]));
        assert(group_ids(after).len() == group_places(after, e).len());
        assert(group_ids(forest).len() == group_places(forest, e).len());
        assert(project_paths(after).len() == project_places(after, e).len());
        assert(paths.len() == project_places(forest, e).len());
    }
}

/// A node whose groups all have names a group may have and whose projects
/// all have absolute paths.
pub open spec fn node_ok(n: NodeModel) -> bool
    decreases n, 0nat,
{
    match n {
        NodeModel::Project(p) => is_absolute(p),
        NodeModel::Group(g) => group_name_refusal(g.name) is None && forest_ok(g.children),
    }
}

pub open spec fn forest_ok(f: Seq<NodeModel>) -> bool
    decreases f, 1nat,
{
    forall|i: int| 0 <= i < f.len() ==> node_ok(#[trigger] f[i])
}

proof fn lemma_forest_ok_drop_last(f: Seq<NodeModel>)
    requires
        f.len() > 0,
    ensures
        forest_ok(f) == (forest_ok(f.drop_last()) && node_ok(f.last())),
{
    if forest_ok(f.drop_last()) && node_ok(f.last()) {
        assert forall|i: int| 0 <= i < f.len() implies node_ok(#[trigger] f[i]) by {
            if i < f.len() - 1 {
                assert(f[i] == f.drop_last()[i]);
            }
        }
    }
    if forest_ok(f) {
        assert forall|i: int| 0 <= i < f.drop_last().len() implies node_ok(
            #[trigger] f.drop_last()[i],
        ) by {
            assert(f[i] == f.drop_last()[i]);
        }
        assert(node_ok(f[f.len() - 1]));
    }
}

/// A forest at a depth of at most five has no problems exactly when its
/// names and paths are good and it fits in five levels from there.
proof fn lemma_problem_free_iff(f: Seq<NodeModel>, depth: nat)
    requires
        depth <= 5,
    ensures
        (first_problem(f, depth) is None) == (forest_ok(f) && depth + forest_height(f) <= 5),
    decreases f,
{
    if f.len() == 0 {
        assert(forest_ok(f));
    } else {
        lemma_problem_free_iff(f.drop_last(), depth);
        lemma_forest_ok_drop_last(f);
        let n = f.last();
        match n {
            NodeModel::Group(g) => {
                if depth + 1 <= 5 {
                    lemma_problem_free_iff(g.children, depth + 1);
                }
                assert((node_problem(n, depth) is None) == (node_ok(n) && depth + node_height(n)
                    <= 5));
            },
            NodeModel::Project(p) => {
                assert((node_problem(n, depth) is None) == node_ok(n));
            },
        }
    }
}

/// Taking a group out keeps the rest and the group good.
proof fn lemma_detach_group_ok(forest: Seq<NodeModel>, id: u32)
    requires
        forest_ok(forest),
        detach_group(forest, id) is Some,
    ensures
        forest_ok((detach_group(forest, id)->0).0),
        node_ok(NodeModel::Group((detach_group(forest, id)->0).1)),
    decreases forest,
{
    let direct = group_with(id);
    let below = group_holder_below(id);
    let rest = (detach_group(forest, id)->0).0;
    if has_first(forest, direct) {
        let k = first_index(forest, direct);
        assert(is_first(forest, direct, k));
        assert(rest == forest.remove(k));
        assert(node_ok(forest[k]));
        assert(forest[k] == NodeModel::Group(forest[k]->Group_0));
        assert forall|i: int| 0 <= i < rest.len() implies node_ok(#[trigger] rest[i]) by {
            if i < k {
                assert(rest[i] == forest[i]);
            } else {
                assert(rest[i] == forest[i + 1]);
            }
        }
    } else {
        let k = first_index(forest, below);
        assert(is_first(forest, below, k));
        let g = forest[k]->Group_0;
        assert(forest[k] == NodeModel::Group(g));
        assert(node_ok(forest[k]));
        lemma_detach_group_ok(g.children, id);
        let inner = (detach_group(g.children, id)->0).0;
        let node2 = NodeModel::Group(GroupModel { children: inner, ..g });
        assert(rest == forest.update(k, node2));
        assert(node_ok(node2));
        assert forall|i: int| 0 <= i < rest.len() implies node_ok(#[trigger] rest[i]) by {
            if i != k {
                assert(rest[i] == forest[i]);
            }
        }
    }
}

/// Appending a good node to a group keeps a good forest good.
proof fn lemma_append_ok(forest: Seq<NodeModel>, id: u32, node: NodeModel)
    requires
        forest_ok(forest),
        node_ok(node),
    ensures
        forest_ok(edit_forest(forest, id, GroupEdit::Append(node))),
    decreases forest,
{
    let pred = group_holder(id);
    if has_first(forest, pred) {
        let k = first_index(forest, pred);
        assert(is_first(forest, pred, k));
        let g = forest[k]->Group_0;
        assert(forest[k] == NodeModel::Group(g));
        assert(node_ok(forest[k]));
        let n2 = edit_node(forest[k], id, GroupEdit::Append(node));
        if g.id == id {
            let c = g.children.push(node);
            assert forall|i: int| 0 <= i < c.len() implies node_ok(#[trigger] c[i]) by {
                if i < g.children.len() {
                    assert(c[i] == g.children[i]);
                }
            }
        } else {
            lemma_append_ok(g.children, id, node);
        }
        assert(node_ok(n2));
        let after = forest.update(k, n2);
        assert forall|i: int| 0 <= i < after.len() implies node_ok(#[trigger] after[i]) by {
            if i != k {
                assert(after[i] == forest[i]);
            }
        }
    }
}

/// Paths that are distinct as paths stay so in any reordering of them.
proof fn lemma_unique_reordered(p: Seq<Seq<u8>>, q: Seq<Seq<u8>>)
    requires
        unique_paths(p),
        p.to_multiset() == q.to_multiset(),
    ensures
        unique_paths(q),
{
    broadcast use vstd::seq_lib::group_to_multiset_ensures;

    crate::paths::lemma_same_path_is_equivalence();
    assert forall|i: int, j: int| 0 <= i < p.len() && 0 <= j < p.len() && i != j implies p[i]
        != p[j] by {
        if i < j {
            assert(!same_path(p[i], p[j]));
        } else {
            assert(!same_path(p[j], p[i]));
        }
    }
    assert(p.no_duplicates());
    p.lemma_multiset_has_no_duplicates();
    q.lemma_multiset_has_no_duplicates_conv();
    assert forall|x: int, y: int| 0 <= x < y < q.len() implies !same_path(
        #[trigger] q[x],
        #[trigger] q[y],
    ) by {
        let u = q[x];
        let v = q[y];
        assert(q.contains(u));
        assert(q.contains(v));
        assert(q.to_multiset().count(u) > 0);
        assert(q.to_multiset().count(v) > 0);
        assert(p.contains(u));
        assert(p.contains(v));
        let a = choose|a: int| 0 <= a < p.len() && p[a] == u;
        let b = choose|b: int| 0 <= b < p.len() && p[b] == v;
        assert(u != v);
        if a < b {
            assert(!same_path(p[a], p[b]));
        } else {
            assert(!same_path(p[b], p[a]));
        }
    }
}

/// Moving a group keeps a valid project list valid: the move is refused
/// when the group would nest deeper than five levels, and every group and
/// project stays, once.
pub proof fn law_move_group_keeps_the_list_valid(forest: Seq<NodeModel>, id: u32, into: Option<u32>)
    requires
        validation_error(forest) is None,
    ensures
        move_group(forest, id, into) matches Ok(after) ==> validation_error(after) is None,
{
    broadcast use vstd::seq_lib::group_to_multiset_ensures;

    if move_group(forest, id, into) is Ok {
        let e = Seq::<GroupModel>::empty();
        let after = move_group(forest, id, into)->Ok_0;
        let (rest, found) = detach_group(forest, id)->0;
        let node = NodeModel::Group(found);
        assert(after == attach(rest, node, into));
        lemma_problem_free_iff(forest, 0);
        crate::library_laws::law_move_group_keeps_depth(forest, id, into);
        crate::library_laws::law_move_group_keeps_ids(forest, id, into);
        crate::library_laws::law_move_group_keeps_projects(forest, id, into);
        lemma_detach_group_ok(forest, id);
        match into {
            Some(t) => {
                if find_group(rest, t) is Some {
                    lemma_append_ok(rest, t, node);
                } else {
                    assert(after == rest.push(node));
                    assert forall|i: int| 0 <= i < after.len() implies node_ok(#[trigger] after[i]) by {
                        if i < rest.len() {
                            assert(after[i] == rest[i]);
                        }
                    }
                }
            },
            None => {
                assert(after == rest.push(node));
                assert forall|i: int| 0 <= i < after.len() implies node_ok(#[trigger] after[i]) by {
                    if i < rest.len() {
                        assert(after[i] == rest[i]);
                    }
                }
            },
        }
        assert(forest_ok(after));
        lemma_problem_free_iff(after, 0);
        assert(project_paths(forest) == paths_in(forest, e));
        assert(project_paths(after) == paths_in(after, e));
        lemma_unique_reordered(project_paths(forest), project_paths(after));
        assert(project_paths(after).len() == project_places(after, e).len());
        assert(project_paths(forest).len() == project_places(forest, e).len());
        assert(project_paths(after).to_multiset().len() == project_paths(forest).to_multiset().len());
    }
}

/// A request to the project list.
pub enum LibraryRequest {
    Remember(Seq<u8>),
    Forget(Seq<u8>),
    CreateGroup(Option<u32>, Seq<char>),
    RenameGroup(u32, Seq<char>),
    RemoveGroup(u32),
    SetCollapsed(u32, bool),
    MoveProject(Seq<u8>, Option<u32>),
    MoveGroup(u32, Option<u32>),
}

/// The list after a request; a refused request leaves it as it was.
pub open spec fn after_request(forest: Seq<NodeModel>, request: LibraryRequest) -> Seq<NodeModel> {
    match request {
        LibraryRequest::Remember(path) => remember(forest, path).1,
        LibraryRequest::Forget(path) => match detach_project(forest, path) {
            Some((rest, _)) => rest,
            None => forest,
        },
        LibraryRequest::CreateGroup(parent, name) => match create_group(forest, parent, name) {
            Ok((_, after)) => after,
            Err(_) => forest,
        },
        LibraryRequest::RenameGroup(id, name) => match rename_group(forest, id, name) {
            Ok(after) => after,
            Err(_) => forest,
        },
        LibraryRequest::RemoveGroup(id) => match remove_group(forest, id) {
            Some(after) => after,
            None => forest,
        },
        LibraryRequest::SetCollapsed(id, collapsed) => set_collapsed(forest, id, collapsed).1,
        LibraryRequest::MoveProject(path, into) => match move_project(forest, path, into) {
            Ok(after) => after,
            Err(_) => forest,
        },
        LibraryRequest::MoveGroup(id, into) => match move_group(forest, id, into) {
            Ok(after) => after,
            Err(_) => forest,
        },
    }
}

/// The list after the requests, in order.
pub open spec fn after_requests(forest: Seq<NodeModel>, requests: Seq<LibraryRequest>) -> Seq<NodeModel>
    decreases requests.len(),
{
    if requests.len() == 0 {
        forest
    } else {
        after_request(after_requests(forest, requests.drop_last()), requests.last())
    }
}

/// No group is created in a list whose largest identifier is the largest
/// `u32`, where the new group would share it.
pub open spec fn creations_fit(forest: Seq<NodeModel>, requests: Seq<LibraryRequest>) -> bool
    decreases requests.len(),
{
    if requests.len() == 0 {
        true
    } else {
        creations_fit(forest, requests.drop_last()) && (requests.last() is CreateGroup ==> max_group_id(
            group_places(after_requests(forest, requests.drop_last()), seq![]),
        ) < u32::MAX)
    }
}

/// Every request keeps a valid project list valid.
pub proof fn law_every_request_keeps_the_list_valid(forest: Seq<NodeModel>, request: LibraryRequest)
    requires
        validation_error(forest) is None,
        request is CreateGroup ==> max_group_id(group_places(forest, seq![])) < u32::MAX,
    ensures
        validation_error(after_request(forest, request)) is None,
{
    match request {
        LibraryRequest::Remember(path) => law_remember_keeps_the_list_valid(forest, path),
        LibraryRequest::Forget(path) => law_forget_keeps_the_list_valid(forest, path),
        LibraryRequest::CreateGroup(parent, name) => law_create_group_keeps_the_list_valid(
            forest,
            parent,
            name,
        ),
        LibraryRequest::RenameGroup(id, name) => law_group_edits_keep_the_list_valid(
            forest,
            id,
            false,
            name,
        ),
        LibraryRequest::RemoveGroup(id) => law_remove_group_keeps_the_list_valid(forest, id),
        LibraryRequest::SetCollapsed(id, collapsed) => law_group_edits_keep_the_list_valid(
            forest,
            id,
            collapsed,
            seq![],
        ),
        LibraryRequest::MoveProject(path, into) => law_move_project_keeps_the_list_valid(
            forest,
            path,
            into,
        ),
        LibraryRequest::MoveGroup(id, into) => law_move_group_keeps_the_list_valid(forest, id, into),
    }
}

/// Any sequence of requests keeps a valid project list valid, so a list the
/// application saved always loads again.
pub proof fn law_every_sequence_keeps_the_list_valid(forest: Seq<NodeModel>, requests: Seq<LibraryRequest>)
    requires
        validation_error(forest) is None,
        creations_fit(forest, requests),
    ensures
        validation_error(after_requests(forest, requests)) is None,
    decreases requests.len(),
{
    if requests.len() > 0 {
        law_every_sequence_keeps_the_list_valid(forest, requests.drop_last());
        law_every_request_keeps_the_list_valid(
            after_requests(forest, requests.drop_last()),
            requests.last(),
        );
    }
}

/// Forgetting a project of a valid list succeeds exactly when the list
/// holds it. The project is then gone, the list holds one project fewer,
/// every group stays, and the other projects keep their order.
pub proof fn law_forget_takes_out_the_project(forest: Seq<NodeModel>, path: Seq<u8>)
    requires
        validation_error(forest) is None,
    ensures
        (detach_project(forest, path) is Some) == contains_project(forest, path),
        detach_project(forest, path) matches Some((rest, _)) ==> {
            &&& !contains_project(rest, path)
            &&& count_projects(rest) + 1 == count_projects(forest)
            &&& group_ids(rest) == group_ids(forest)
            &&& exists|j: int|
                0 <= j < count_projects(forest) && project_paths(rest) == #[trigger] project_paths(
                    forest,
                ).remove(j) && same_path(project_paths(forest)[j], path)
        },
{
    crate::library_model::lemma_detach_succeeds(forest, path, 0);
    if detach_project(forest, path) is Some {
        let e = Seq::<GroupModel>::empty();
        let rest = (detach_project(forest, path)->0).0;
        let found = (detach_project(forest, path)->0).1;
        lemma_detach_project_parts(forest, path, e, 0);
        let paths = place_paths_of(project_places(forest, e));
        let j = choose|j: int|
            0 <= j < project_places(forest, e).len() && place_paths_of(project_places(rest, e))
                == #[trigger] paths.remove(j) && paths[j] == found;
        assert(project_paths(forest) == paths);
        assert(project_paths(rest) == place_paths_of(project_places(rest, e)));
        assert(group_ids(forest) == place_ids(group_places(forest, e)));
        assert(group_ids(rest) == place_ids(group_places(rest, e)));
        let kept = project_paths(rest);
        assert(kept.len() == project_places(rest, e).len());
        assert(paths.len() == project_places(forest, e).len());
        crate::paths::lemma_same_path_is_equivalence();
        lemma_first_project_exists(project_places(rest, e), path);
        if contains_project(rest, path) {
            let i = choose|i: int|
                0 <= i < project_places(rest, e).len() && same_path(
                    #[trigger] project_places(rest, e)[i].path,
                    path,
                );
            let ii = if i < j {
                i
            } else {
                i + 1
            };
            assert(kept[i] == project_places(rest, e)[i].path);
            assert(kept[i] == paths[ii]);
            assert(same_path(paths[ii], paths[j]));
            if ii < j {
                assert(!same_path(paths[ii], paths[j]));
            } else {
                assert(!same_path(paths[j], paths[ii]));
            }
        }
    }
}

/// Removing a group of a valid list succeeds exactly when the list holds
/// it. The group is then gone, the list holds one group fewer, and its
/// projects are those it had, in order.
pub proof fn law_remove_group_takes_out_the_group(forest: Seq<NodeModel>, id: u32)
    requires
        validation_error(forest) is None,
    ensures
        (remove_group(forest, id) is Some) == (find_group(forest, id) is Some),
        remove_group(forest, id) matches Some(rest) ==> {
            &&& find_group(rest, id) is None
            &&& count_groups(rest) + 1 == count_groups(forest)
            &&& project_paths(rest) == project_paths(forest)
        },
{
    crate::library_model::lemma_detach_succeeds(forest, seq![], id);
    if remove_group(forest, id) is Some {
        let e = Seq::<GroupModel>::empty();
        let rest = remove_group(forest, id)->0;
        lemma_remove_group_parts(forest, id, e, 0);
        let ids = place_ids(group_places(forest, e));
        let j = choose|j: int|
            0 <= j < group_places(forest, e).len() && place_ids(group_places(rest, e))
                == #[trigger] ids.remove(j) && ids[j] == id;
        assert(group_ids(forest) == ids);
        let kept = place_ids(group_places(rest, e));
        assert(kept.len() == group_places(rest, e).len());
        assert(ids.len() == group_places(forest, e).len());
        assert(kept == ids.remove(j));
        assert(kept.len() + 1 == ids.len());
        lemma_first_place_found(group_places(rest, e), id);
        assert forall|i: int| 0 <= i < group_places(rest, e).len() implies #[trigger] group_places(
            rest,
            e,
        )[i].group.id != id by {
            assert(kept[i] == group_places(rest, e)[i].group.id);
            let ii = if i < j {
                i
            } else {
                i + 1
            };
            assert(kept[i] == ids[ii]);
            if ii < j {
                assert(ids[ii] != ids[j]);
            } else {
                assert(ids[j] != ids[ii]);
            }
        }
        assert(kept.len() == group_places(rest, e).len());
        assert(ids.len() == group_places(forest, e).len());
        assert(project_paths(forest) == place_paths_of(project_places(forest, e)));
        assert(project_paths(rest) == place_paths_of(project_places(rest, e)));
    }
}

} // verus!
