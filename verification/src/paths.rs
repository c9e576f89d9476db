//! Byte-safe Unix paths. A path is kept as the bytes the operating system
//! uses, and compared by its components the way `std::path::Path` compares
//! them: repeated separators, a trailing separator and `.` segments after the
//! first do not distinguish two paths.

use vstd::prelude::*;

verus! {

/// The separator byte, `/`.
pub const SEPARATOR: u8 = 47;

/// The byte `.`.
pub const DOT: u8 = 46;

/// The byte strings held by a list of byte vectors.
pub open spec fn views(v: Seq<Vec<u8>>) -> Seq<Seq<u8>> {
    v.map_values(|x: Vec<u8>| x@)
}

/// The root directory component. A normal component never holds a separator,
/// so this marker cannot be mistaken for one.
pub open spec fn root_component() -> Seq<u8> {
    seq![SEPARATOR]
}

/// The current-directory component that starts a relative path like `./a`.
pub open spec fn cur_dir_component() -> Seq<u8> {
    seq![DOT]
}

pub open spec fn has_root(p: Seq<u8>) -> bool {
    p.len() > 0 && p[0] == SEPARATOR
}

/// A relative path that starts with a `.` segment keeps it as a component.
pub open spec fn leading_cur_dir(p: Seq<u8>) -> bool {
    &&& !has_root(p)
    &&& p.len() > 0
    &&& p[0] == DOT
    &&& (p.len() == 1 || p[1] == SEPARATOR)
}

/// A segment between separators that names something: not empty and not `.`.
pub open spec fn keep_segment(segment: Seq<u8>) -> bool {
    segment.len() > 0 && segment != cur_dir_component()
}

pub open spec fn flush(parts: Seq<Seq<u8>>, segment: Seq<u8>) -> Seq<Seq<u8>> {
    if keep_segment(segment) {
        parts.push(segment)
    } else {
        parts
    }
}

/// The bytes of `p` after its last separator.
pub open spec fn scan_tail(p: Seq<u8>) -> Seq<u8>
    decreases p.len(),
{
    if p.len() == 0 {
        seq![]
    } else if p.last() == SEPARATOR {
        seq![]
    } else {
        scan_tail(p.drop_last()).push(p.last())
    }
}

/// The named segments of `p` that end in a separator.
pub open spec fn scan_parts(p: Seq<u8>) -> Seq<Seq<u8>>
    decreases p.len(),
{
    if p.len() == 0 {
        seq![]
    } else if p.last() == SEPARATOR {
        flush(scan_parts(p.drop_last()), scan_tail(p.drop_last()))
    } else {
        scan_parts(p.drop_last())
    }
}

/// Every named segment of `p`, in order.
pub open spec fn named_parts(p: Seq<u8>) -> Seq<Seq<u8>> {
    flush(scan_parts(p), scan_tail(p))
}

pub open spec fn header(p: Seq<u8>) -> Seq<Seq<u8>> {
    if has_root(p) {
        seq![root_component()]
    } else if leading_cur_dir(p) {
        seq![cur_dir_component()]
    } else {
        seq![]
    }
}

/// The components of `p`, as `Path::components` yields them.
pub open spec fn components(p: Seq<u8>) -> Seq<Seq<u8>> {
    header(p) + named_parts(p)
}

/// `Path::eq`: two paths are the same when their components are.
pub open spec fn same_path(a: Seq<u8>, b: Seq<u8>) -> bool {
    components(a) == components(b)
}

/// `Path::is_absolute` on Unix: the path starts at the root.
pub open spec fn is_absolute(p: Seq<u8>) -> bool {
    has_root(p)
}

/// `Path::starts_with`: the components of `base` begin those of `p`.
pub open spec fn starts_with(p: Seq<u8>, base: Seq<u8>) -> bool {
    components(base).len() <= components(p).len() && components(p).subrange(
        0,
        components(base).len() as int,
    ) == components(base)
}

/// The components of `p` below `base`, when `p` starts with `base`.
pub open spec fn components_below(p: Seq<u8>, base: Seq<u8>) -> Seq<Seq<u8>> {
    components(p).subrange(components(base).len() as int, components(p).len() as int)
}

/// A component that names an entry: not the root, `.` or `..`.
pub open spec fn is_normal_component(c: Seq<u8>) -> bool {
    c != root_component() && c != cur_dir_component() && c != seq![DOT, DOT]
}

/// `Path::file_name`: the last component when it names an entry.
pub open spec fn file_name(p: Seq<u8>) -> Option<Seq<u8>> {
    let c = components(p);
    if c.len() > 0 && is_normal_component(c.last()) {
        Some(c.last())
    } else {
        None
    }
}

pub proof fn lemma_same_path_is_equivalence()
    ensures
        forall|a: Seq<u8>| #[trigger] same_path(a, a),
        forall|a: Seq<u8>, b: Seq<u8>| #[trigger] same_path(a, b) ==> same_path(b, a),
        forall|a: Seq<u8>, b: Seq<u8>, c: Seq<u8>|
            #[trigger] same_path(a, b) && #[trigger] same_path(b, c) ==> same_path(a, c),
{
}

pub fn path_is_absolute(p: &[u8]) -> (r: bool)
    ensures
        r == is_absolute(p@),
{
    p.len() > 0 && p[0] == SEPARATOR
}

pub fn bytes_equal(a: &[u8], b: &[u8]) -> (r: bool)
    ensures
        r == (a@ == b@),
{
    if a.len() != b.len() {
        return false;
    }
    let mut i: usize = 0;
    while i < a.len()
        invariant
            i <= a@.len(),
            a@.len() == b@.len(),
            forall|k: int| 0 <= k < i ==> a@[k] == b@[k],
        decreases a@.len() - i,
    {
        if a[i] != b[i] {
            return false;
        }
        i = i + 1;
    }
    assert(a@ =~= b@);
    true
}

/// The components of `p`, each as its bytes.
pub fn path_components(p: &[u8]) -> (r: Vec<Vec<u8>>)
    ensures
        views(r@) == components(p@),
{
    let n = p.len();
    let mut parts: Vec<Vec<u8>> = Vec::new();
    let mut current: Vec<u8> = Vec::new();
    let mut i: usize = 0;
    while i < n
        invariant
            i <= n,
            n == p@.len(),
            views(parts@) == scan_parts(p@.take(i as int)),
            current@ == scan_tail(p@.take(i as int)),
        decreases n - i,
    {
        let b = p[i];
        proof {
            assert(p@.take(i + 1).drop_last() =~= p@.take(i as int));
            assert(p@.take(i + 1).last() == b);
        }
        if b == SEPARATOR {
            let keep = current.len() > 0 && !(current.len() == 1 && current[0] == DOT);
            proof {
                assert(keep == keep_segment(current@)) by {
                    if current@ == cur_dir_component() {
                        assert(current@.len() == 1 && current@[0] == DOT);
                    }
                    if current@.len() == 1 && current@[0] == DOT {
                        assert(current@ =~= cur_dir_component());
                    }
                }
            }
            if keep {
                let ghost before = views(parts@);
                let segment = current;
                parts.push(segment);
                proof {
                    assert(views(parts@) =~= before.push(current@));
                }
            }
            current = Vec::new();
            proof {
                assert(current@ =~= scan_tail(p@.take(i + 1)));
            }
        } else {
            current.push(b);
        }
        i = i + 1;
    }
    proof {
        assert(p@.take(n as int) =~= p@);
    }
    let keep = current.len() > 0 && !(current.len() == 1 && current[0] == DOT);
    proof {
        assert(keep == keep_segment(current@)) by {
            if current@ == cur_dir_component() {
                assert(current@.len() == 1 && current@[0] == DOT);
            }
            if current@.len() == 1 && current@[0] == DOT {
                assert(current@ =~= cur_dir_component());
            }
        }
    }
    if keep {
        let ghost before = views(parts@);
        let segment = current;
        parts.push(segment);
        proof {
            assert(views(parts@) =~= before.push(current@));
        }
    }
    let ghost named = views(parts@);
    assert(named == named_parts(p@));
    let mut r: Vec<Vec<u8>> = Vec::new();
    if n > 0 && p[0] == SEPARATOR {
        let mut root: Vec<u8> = Vec::new();
        root.push(SEPARATOR);
        r.push(root);
    } else if n > 0 && p[0] == DOT && (n == 1 || p[1] == SEPARATOR) {
        let mut dot: Vec<u8> = Vec::new();
        dot.push(DOT);
        r.push(dot);
    }
    assert(views(r@) =~= header(p@));
    let ghost head = views(r@);
    r.append(&mut parts);
    assert(views(r@) =~= head + named);
    r
}


/// Whether two lists of byte strings hold the same strings in the same order.
pub fn byte_lists_equal(a: &Vec<Vec<u8>>, b: &Vec<Vec<u8>>) -> (r: bool)
    ensures
        r == (views(a@) == views(b@)),
{
    if a.len() != b.len() {
        assert(views(a@).len() != views(b@).len());
        return false;
    }
    let mut i: usize = 0;
    while i < a.len()
        invariant
            i <= a@.len(),
            a@.len() == b@.len(),
            forall|k: int| 0 <= k < i ==> views(a@)[k] == views(b@)[k],
        decreases a@.len() - i,
    {
        if !bytes_equal(a[i].as_slice(), b[i].as_slice()) {
            assert(views(a@)[i as int] != views(b@)[i as int]);
            return false;
        }
        i = i + 1;
    }
    assert(views(a@) =~= views(b@));
    true
}

/// `Path::eq`: whether two paths have the same components.
pub fn paths_equal(a: &[u8], b: &[u8]) -> (r: bool)
    ensures
        r == same_path(a@, b@),
{
    let ca = path_components(a);
    let cb = path_components(b);
    byte_lists_equal(&ca, &cb)
}

/// `Path::starts_with`: whether the components of `base` begin those of `p`.
pub fn path_starts_with(p: &[u8], base: &[u8]) -> (r: bool)
    ensures
        r == starts_with(p@, base@),
{
    let cp = path_components(p);
    let cb = path_components(base);
    if cb.len() > cp.len() {
        return false;
    }
    let mut i: usize = 0;
    while i < cb.len()
        invariant
            i <= cb@.len() <= cp@.len(),
            views(cp@) == components(p@),
            views(cb@) == components(base@),
            forall|k: int| 0 <= k < i ==> views(cp@)[k] == views(cb@)[k],
        decreases cb@.len() - i,
    {
        if !bytes_equal(cp[i].as_slice(), cb[i].as_slice()) {
            assert(components(p@).subrange(0, components(base@).len() as int)[i as int]
                != components(base@)[i as int]);
            return false;
        }
        i = i + 1;
    }
    assert(components(p@).subrange(0, components(base@).len() as int) =~= components(base@));
    true
}

} // verus!
