//! Directory subtrees whose watches could not be registered.
//!
//! A refresh keeps watching what it could and remembers, for each subtree it
//! could not cover, why. A subtree already remembered stands for everything
//! inside it, a new subtree replaces those it contains, and the number of
//! remembered subtrees is bounded: past the bound a single coverage message
//! is kept instead.
use vstd::prelude::*;
use crate::local_refresh::{bounded_error, bounded_message};
use crate::paths::{path_starts_with, starts_with};
use crate::project_library::copy_bytes;

verus! {

/// Most subtrees remembered at once.
pub const MAX_DEFERRED_ROOTS: usize = 256;

/// The subtrees that could not be watched, each with why, and the coverage
/// message that stands for the ones past the bound.
#[derive(Debug)]
pub struct Deferred {
    pub roots: Vec<(Vec<u8>, String)>,
    pub policy_error: Option<String>,
}

pub open spec fn root_views(roots: Seq<(Vec<u8>, String)>) -> Seq<(Seq<u8>, Seq<char>)> {
    roots.map_values(|r: (Vec<u8>, String)| (r.0@, r.1@))
}

pub open spec fn full_message() -> Seq<char> {
    "More than 256 directory subtrees could not be watched. Refresh to retry coverage."@
}

/// Whether some remembered subtree holds `path`.
pub open spec fn covered(roots: Seq<(Seq<u8>, Seq<char>)>, path: Seq<u8>) -> bool {
    exists|i: int| 0 <= i < roots.len() && starts_with(path, #[trigger] roots[i].0)
}

/// The remembered subtrees that `path` does not contain, in order.
pub open spec fn outside(roots: Seq<(Seq<u8>, Seq<char>)>, path: Seq<u8>) -> Seq<(Seq<u8>, Seq<char>)>
    decreases roots.len(),
{
    if roots.len() == 0 {
        seq![]
    } else {
        let kept = outside(roots.drop_last(), path);
        if starts_with(roots.last().0, path) {
            kept
        } else {
            kept.push(roots.last())
        }
    }
}

/// No remembered subtree lies inside another.
pub open spec fn disjoint(roots: Seq<(Seq<u8>, Seq<char>)>) -> bool {
    forall|i: int, j: int|
        0 <= i < roots.len() && 0 <= j < roots.len() && i != j ==> !starts_with(
            #[trigger] roots[i].0,
            #[trigger] roots[j].0,
        )
}

impl Deferred {
    pub fn new() -> (r: Deferred)
        ensures
            r.roots@.len() == 0,
            r.policy_error is None,
    {
        Deferred { roots: Vec::new(), policy_error: None }
    }

    /// Forgets the remembered subtrees inside `path`, which is being watched
    /// anew or is gone.
    pub fn forget_within(&mut self, path: &[u8])
        ensures
            root_views(final(self).roots@) == outside(root_views(old(self).roots@), path@),
            final(self).policy_error == old(self).policy_error,
    {
        let mut rest: Vec<(Vec<u8>, String)> = Vec::new();
        std::mem::swap(&mut rest, &mut self.roots);
        self.roots = keep_outside(rest, path);
    }

    /// Remembers that the subtree at `path` could not be watched, and why.
    pub fn defer(&mut self, path: &[u8], error: String)
        ensures
            covered(root_views(old(self).roots@), path@) ==> root_views(final(self).roots@)
                == root_views(old(self).roots@) && final(self).policy_error == old(
                self,
            ).policy_error,
            !covered(root_views(old(self).roots@), path@) ==> {
                let kept = outside(root_views(old(self).roots@), path@);
                if kept.len() < MAX_DEFERRED_ROOTS {
                    &&& root_views(final(self).roots@) == kept.push((path@, bounded_message(error@)))
                    &&& final(self).policy_error == old(self).policy_error
                } else {
                    &&& root_views(final(self).roots@) == kept
                    &&& old(self).policy_error is Some ==> final(self).policy_error == old(
                        self,
                    ).policy_error
                    &&& old(self).policy_error is None ==> (final(self).policy_error matches Some(
                        m,
                    ) && m@ == full_message())
                }
            },
    {
        let n = self.roots.len();
        let mut i: usize = 0;
        while i < n
            invariant
                i <= n,
                n == self.roots@.len(),
                forall|k: int|
                    0 <= k < i ==> !starts_with(path@, #[trigger] root_views(self.roots@)[k].0),
            decreases n - i,
        {
            if path_starts_with(path, self.roots[i].0.as_slice()) {
                proof {
                    assert(starts_with(path@, root_views(self.roots@)[i as int].0));
                }
                return;
            }
            i = i + 1;
        }
        proof {
            assert(!covered(root_views(self.roots@), path@));
        }
        let mut rest: Vec<(Vec<u8>, String)> = Vec::new();
        std::mem::swap(&mut rest, &mut self.roots);
        let mut kept = keep_outside(rest, path);
        if kept.len() < MAX_DEFERRED_ROOTS {
            let ghost old_kept = kept@;
            kept.push((copy_bytes(path), bounded_error(error)));
            proof {
                assert(root_views(kept@) =~= root_views(old_kept).push((path@, bounded_message(error@))));
            }
        } else if self.policy_error.is_none() {
            self.policy_error = Some(
                "More than 256 directory subtrees could not be watched. Refresh to retry coverage.".to_owned(),
            );
        }
        self.roots = kept;
    }
}

/// The subtrees of `roots` that `path` does not contain, in order.
fn keep_outside(roots: Vec<(Vec<u8>, String)>, path: &[u8]) -> (r: Vec<(Vec<u8>, String)>)
    ensures
        root_views(r@) == outside(root_views(roots@), path@),
{
    let ghost before = root_views(roots@);
    let n = roots.len();
    let mut rest = roots;
    let mut kept: Vec<(Vec<u8>, String)> = Vec::new();
    let mut d: usize = 0;
    proof {
        assert(before.take(0) =~= Seq::<(Seq<u8>, Seq<char>)>::empty());
        assert(root_views(rest@) =~= before.skip(0));
    }
    while rest.len() > 0
        invariant
            d <= n,
            n == before.len(),
            rest@.len() + d == n,
            root_views(rest@) == before.skip(d as int),
            root_views(kept@) == outside(before.take(d as int), path@),
        decreases rest.len(),
    {
        let ghost old_rest = rest@;
        let entry = rest.remove(0);
        proof {
            assert(before.take(d + 1).drop_last() =~= before.take(d as int));
            assert(root_views(old_rest)[0] == before.skip(d as int)[0]);
            assert(before.take(d + 1).last() == before[d as int]);
            assert forall|k: int| 0 <= k < rest@.len() implies #[trigger] root_views(rest@)[k]
                == before.skip(d + 1)[k] by {
                assert(rest@[k] == old_rest[k + 1]);
                assert(root_views(old_rest)[k + 1] == before.skip(d as int)[k + 1]);
            }
            assert(root_views(rest@) =~= before.skip(d + 1));
        }
        if !path_starts_with(entry.0.as_slice(), path) {
            let ghost old_kept = kept@;
            kept.push(entry);
            proof {
                assert(root_views(kept@) =~= root_views(old_kept).push(before[d as int]));
            }
        }
        d = d + 1;
    }
    proof {
        assert(before.take(n as int) =~= before);
    }
    kept
}

/// Every subtree kept is one of those remembered, and lies outside `path`.
proof fn lemma_outside_members(roots: Seq<(Seq<u8>, Seq<char>)>, path: Seq<u8>)
    ensures
        forall|i: int|
            0 <= i < outside(roots, path).len() ==> !starts_with(
                (#[trigger] outside(roots, path)[i]).0,
                path,
            ) && exists|j: int| 0 <= j < roots.len() && roots[j] == outside(roots, path)[i],
        outside(roots, path).len() <= roots.len(),
    decreases roots.len(),
{
    if roots.len() > 0 {
        let prefix = roots.drop_last();
        lemma_outside_members(prefix, path);
        let kept = outside(prefix, path);
        assert forall|i: int| 0 <= i < outside(roots, path).len() implies !starts_with(
            (#[trigger] outside(roots, path)[i]).0,
            path,
        ) && exists|j: int| 0 <= j < roots.len() && roots[j] == outside(roots, path)[i] by {
            if i < kept.len() {
                assert(outside(roots, path)[i] == kept[i]);
                let j = choose|j: int| 0 <= j < prefix.len() && prefix[j] == kept[i];
                assert(roots[j] == prefix[j]);
            } else {
                assert(outside(roots, path)[i] == roots.last());
                assert(roots[roots.len() - 1] == roots.last());
            }
        }
    }
}

/// Keeping only some subtrees keeps them apart, each kept one after those
/// before it.
proof fn lemma_outside_disjoint(roots: Seq<(Seq<u8>, Seq<char>)>, path: Seq<u8>)
    requires
        disjoint(roots),
    ensures
        disjoint(outside(roots, path)),
    decreases roots.len(),
{
    if roots.len() > 0 {
        let prefix = roots.drop_last();
        assert(disjoint(prefix)) by {
            assert forall|i: int, j: int|
                0 <= i < prefix.len() && 0 <= j < prefix.len() && i != j implies !starts_with(
                #[trigger] prefix[i].0,
                #[trigger] prefix[j].0,
            ) by {
                assert(prefix[i] == roots[i]);
                assert(prefix[j] == roots[j]);
            }
        }
        lemma_outside_disjoint(prefix, path);
        lemma_outside_members(prefix, path);
        let kept = outside(prefix, path);
        if !starts_with(roots.last().0, path) {
            let grown = kept.push(roots.last());
            let last = roots.len() - 1;
            assert(roots[last] == roots.last());
            assert forall|i: int, j: int|
                0 <= i < grown.len() && 0 <= j < grown.len() && i != j implies !starts_with(
                #[trigger] grown[i].0,
                #[trigger] grown[j].0,
            ) by {
                if i < kept.len() && j < kept.len() {
                    assert(grown[i] == kept[i]);
                    assert(grown[j] == kept[j]);
                } else if i < kept.len() {
                    assert(grown[i] == kept[i]);
                    let a = choose|a: int| 0 <= a < prefix.len() && prefix[a] == kept[i];
                    assert(roots[a] == prefix[a]);
                    assert(!starts_with(roots[a].0, roots[last].0));
                } else {
                    assert(grown[j] == kept[j]);
                    let b = choose|b: int| 0 <= b < prefix.len() && prefix[b] == kept[j];
                    assert(roots[b] == prefix[b]);
                    assert(!starts_with(roots[last].0, roots[b].0));
                }
            }
        }
    }
}

/// Remembering a subtree keeps the remembered subtrees apart, within the
/// bound, and leaves `path` covered unless the bound was reached.
pub proof fn law_deferred_roots_stay_apart(
    roots: Seq<(Seq<u8>, Seq<char>)>,
    path: Seq<u8>,
    reason: Seq<char>,
)
    requires
        disjoint(roots),
        roots.len() <= MAX_DEFERRED_ROOTS,
        !covered(roots, path),
    ensures
        outside(roots, path).len() < MAX_DEFERRED_ROOTS ==> {
            let after = outside(roots, path).push((path, reason));
            &&& disjoint(after)
            &&& after.len() <= MAX_DEFERRED_ROOTS
            &&& covered(after, path)
        },
        disjoint(outside(roots, path)),
{
    lemma_outside_disjoint(roots, path);
    lemma_outside_members(roots, path);
    let kept = outside(roots, path);
    let after = kept.push((path, reason));
    if kept.len() < MAX_DEFERRED_ROOTS {
        assert forall|i: int, j: int|
            0 <= i < after.len() && 0 <= j < after.len() && i != j implies !starts_with(
            #[trigger] after[i].0,
            #[trigger] after[j].0,
        ) by {
            if i < kept.len() && j < kept.len() {
                assert(after[i] == kept[i]);
                assert(after[j] == kept[j]);
            } else if i < kept.len() {
                assert(after[i] == kept[i]);
                assert(after[j].0 == path);
            } else {
                assert(after[j] == kept[j]);
                let b = choose|b: int| 0 <= b < roots.len() && roots[b] == kept[j];
                assert(!starts_with(path, roots[b].0));
            }
        }
        assert(starts_with(path, after[kept.len() as int].0)) by {
            assert(after[kept.len() as int].0 == path);
            assert(crate::paths::components(path).subrange(0, crate::paths::components(path).len() as int) =~= crate::paths::components(path));
        }
    }
}

} // verus!
