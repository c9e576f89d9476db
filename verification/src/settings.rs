//! What an explicit settings edit must satisfy before it is saved: text
//! sizes within their ranges, an external editor on one line, and a default
//! branch name Git accepts. This is only the preference boundary; Git
//! operations still validate their actual targets.

use vstd::prelude::*;
use crate::text::{chars_of, utf8_len};

verus! {

pub const INTERFACE_TEXT_MIN: u8 = 11;

pub const INTERFACE_TEXT_MAX: u8 = 18;

pub const CODE_TEXT_MIN: u8 = 10;

pub const CODE_TEXT_MAX: u8 = 24;

pub const MAX_EDITOR_BYTES: usize = 4096;

pub const MAX_BRANCH_BYTES: usize = 255;

pub open spec fn text_size_message() -> Seq<char> {
    "Choose interface text from 11 to 18 points and code text from 10 to 24 points"@
}

pub open spec fn editor_message() -> Seq<char> {
    "Editor must be an application name or executable path of at most 4,096 bytes"@
}

pub open spec fn branch_length_message() -> Seq<char> {
    "Default branch must contain between 1 and 255 bytes"@
}

pub open spec fn branch_name_message() -> Seq<char> {
    "Default branch must be a valid Git branch name, such as main or team/main"@
}

/// A character that would split an editor command across lines.
pub open spec fn breaks_command(c: char) -> bool {
    c == '\0' || c == '\n' || c == '\r'
}

/// A byte Git refuses anywhere in a branch name: a space or control byte,
/// or one of `~ ^ : ? * [ \`.
pub open spec fn refused_byte(b: u8) -> bool {
    b <= 32 || b == 127 || b == 126 || b == 94 || b == 58 || b == 63 || b == 42 || b == 91 || b == 92
}

/// Whether `b` has `pair` at position `i`.
pub open spec fn pair_at(b: Seq<u8>, i: int, first: u8, second: u8) -> bool {
    0 <= i && i + 1 < b.len() && b[i] == first && b[i + 1] == second
}

/// Whether a slash-separated part of `b` ends with `.lock` at position `i`.
pub open spec fn lock_part_at(b: Seq<u8>, i: int) -> bool {
    &&& 0 <= i && i + 5 <= b.len()
    &&& b.subrange(i, i + 5) == seq![46u8, 108u8, 111u8, 99u8, 107u8]
    &&& (i + 5 == b.len() || b[i + 5] == 47)
}

/// A branch name Git accepts, by its bytes: it does not start with `-`, is
/// not `@` or `HEAD`, does not end with `.`, holds no `..` or `@{` and no
/// refused byte, and every slash-separated part is nonempty, does not start
/// with `.` and does not end with `.lock`.
pub open spec fn valid_branch_bytes(b: Seq<u8>) -> bool {
    &&& b.len() > 0
    &&& b[0] != 45
    &&& b != seq![64u8]
    &&& b != seq![72u8, 69u8, 65u8, 68u8]
    &&& b.last() != 46
    &&& forall|i: int| 0 <= i < b.len() ==> !refused_byte(#[trigger] b[i])
    &&& forall|i: int| !#[trigger] pair_at(b, i, 46, 46)
    &&& forall|i: int| !#[trigger] pair_at(b, i, 64, 123)
    &&& b[0] != 47 && b.last() != 47
    &&& forall|i: int| !#[trigger] pair_at(b, i, 47, 47)
    &&& b[0] != 46
    &&& forall|i: int| !#[trigger] pair_at(b, i, 47, 46)
    &&& forall|i: int| !#[trigger] lock_part_at(b, i)
}

/// Why a settings edit cannot be saved, or `None`.
pub open spec fn settings_problem(
    interface_text_size: u8,
    code_text_size: u8,
    editor: Seq<char>,
    branch: Seq<char>,
) -> Option<Seq<char>> {
    if !(INTERFACE_TEXT_MIN <= interface_text_size <= INTERFACE_TEXT_MAX && CODE_TEXT_MIN
        <= code_text_size <= CODE_TEXT_MAX) {
        Some(text_size_message())
    } else if !(utf8_len(editor) <= MAX_EDITOR_BYTES && forall|i: int|
        0 <= i < editor.len() ==> !breaks_command(#[trigger] editor[i])) {
        Some(editor_message())
    } else if !(0 < utf8_len(branch) <= MAX_BRANCH_BYTES) {
        Some(branch_length_message())
    } else if !valid_branch_bytes(vstd::utf8::encode_utf8(branch)) {
        Some(branch_name_message())
    } else {
        None
    }
}

fn editor_on_one_line(editor: &str) -> (r: bool)
    ensures
        r == forall|i: int| 0 <= i < editor@.len() ==> !breaks_command(#[trigger] editor@[i]),
{
    let chars = chars_of(editor);
    let mut i: usize = 0;
    while i < chars.len()
        invariant
            i <= chars@.len(),
            chars@ == editor@,
            forall|k: int| 0 <= k < i ==> !breaks_command(#[trigger] editor@[k]),
        decreases chars@.len() - i,
    {
        let c = chars[i];
        if c == '\0' || c == '\n' || c == '\r' {
            assert(breaks_command(editor@[i as int]));
            return false;
        }
        i = i + 1;
    }
    true
}

fn valid_branch(b: &[u8]) -> (r: bool)
    ensures
        r == valid_branch_bytes(b@),
{
    let n = b.len();
    if n == 0 {
        return false;
    }
    let whole_at = n == 1 && b[0] == 64;
    let whole_head = n == 4 && b[0] == 72 && b[1] == 69 && b[2] == 65 && b[3] == 68;
    proof {
        if n == 1 {
            assert((b@ == seq![64u8]) == (b@[0] == 64)) by {
                if b@[0] == 64 {
                    assert(b@ =~= seq![64u8]);
                }
            }
        } else {
            assert(b@ != seq![64u8]);
        }
        if n == 4 {
            if b@[0] == 72 && b@[1] == 69 && b@[2] == 65 && b@[3] == 68 {
                assert(b@ =~= seq![72u8, 69u8, 65u8, 68u8]);
            }
        } else {
            assert(b@ != seq![72u8, 69u8, 65u8, 68u8]);
        }
    }
    if b[0] == 45 || whole_at || whole_head || b[n - 1] == 46 || b[0] == 47 || b[n - 1] == 47
        || b[0] == 46 {
        return false;
    }
    let mut i: usize = 0;
    while i < n
        invariant
            i <= n,
            n == b@.len(),
            forall|k: int| 0 <= k < i ==> !refused_byte(#[trigger] b@[k]),
            forall|k: int| k < i ==> !#[trigger] pair_at(b@, k, 46, 46),
            forall|k: int| k < i ==> !#[trigger] pair_at(b@, k, 64, 123),
            forall|k: int| k < i ==> !#[trigger] pair_at(b@, k, 47, 47),
            forall|k: int| k < i ==> !#[trigger] pair_at(b@, k, 47, 46),
            forall|k: int| k < i ==> !#[trigger] lock_part_at(b@, k),
        decreases n - i,
    {
        let c = b[i];
        if c <= 32 || c == 127 || c == 126 || c == 94 || c == 58 || c == 63 || c == 42 || c == 91
            || c == 92 {
            return false;
        }
        if i + 1 < n {
            let d = b[i + 1];
            if (c == 46 && d == 46) || (c == 64 && d == 123) || (c == 47 && d == 47) || (c == 47
                && d == 46) {
                proof {
                    assert(pair_at(b@, i as int, c, d));
                }
                return false;
            }
        }
        if 5 <= n - i && c == 46 && b[i + 1] == 108 && b[i + 2] == 111 && b[i + 3] == 99 && b[i
            + 4] == 107 && (i + 5 == n || b[i + 5] == 47) {
            proof {
                assert(b@.subrange(i as int, i + 5) =~= seq![46u8, 108u8, 111u8, 99u8, 107u8]);
                assert(lock_part_at(b@, i as int));
            }
            return false;
        }
        proof {
            if 5 <= n - i {
                if b@.subrange(i as int, i + 5) == seq![46u8, 108u8, 111u8, 99u8, 107u8] {
                    assert(b@.subrange(i as int, i + 5)[0] == b@[i as int]);
                    assert(b@.subrange(i as int, i + 5)[1] == b@[i + 1]);
                    assert(b@.subrange(i as int, i + 5)[2] == b@[i + 2]);
                    assert(b@.subrange(i as int, i + 5)[3] == b@[i + 3]);
                    assert(b@.subrange(i as int, i + 5)[4] == b@[i + 4]);
                }
            }
        }
        i = i + 1;
    }
    true
}

/// Validate an explicit settings edit before it is saved, from the values
/// of the settings it constrains.
pub fn validate_settings(
    interface_text_size: u8,
    code_text_size: u8,
    editor: &str,
    default_branch: &str,
) -> (r: Result<(), String>)
    ensures
        match settings_problem(interface_text_size, code_text_size, editor@, default_branch@) {
            Some(p) => r matches Err(e) && e@ == p,
            None => r is Ok,
        },
{
    if !(INTERFACE_TEXT_MIN <= interface_text_size && interface_text_size <= INTERFACE_TEXT_MAX
        && CODE_TEXT_MIN <= code_text_size && code_text_size <= CODE_TEXT_MAX) {
        return Err(
            "Choose interface text from 11 to 18 points and code text from 10 to 24 points".to_owned(),
        );
    }
    if !(editor.as_bytes().len() <= MAX_EDITOR_BYTES && editor_on_one_line(editor)) {
        return Err(
            "Editor must be an application name or executable path of at most 4,096 bytes".to_owned(),
        );
    }
    let bytes = default_branch.as_bytes();
    if !(0 < bytes.len() && bytes.len() <= MAX_BRANCH_BYTES) {
        return Err("Default branch must contain between 1 and 255 bytes".to_owned());
    }
    if !valid_branch(bytes) {
        return Err(
            "Default branch must be a valid Git branch name, such as main or team/main".to_owned(),
        );
    }
    Ok(())
}

pub const GRAPH_SPACING_MIN: u8 = 12;
pub const GRAPH_SPACING_MAX: u8 = 32;

pub open spec fn clamped(v: u8, lo: u8, hi: u8) -> u8 {
    if v < lo {
        lo
    } else if v > hi {
        hi
    } else {
        v
    }
}

fn clamp_to(v: u8, lo: u8, hi: u8) -> (r: u8)
    requires
        lo <= hi,
    ensures
        r == clamped(v, lo, hi),
{
    if v < lo {
        lo
    } else if v > hi {
        hi
    } else {
        v
    }
}

/// Loaded graph spacing and text sizes brought into their ranges: graph
/// spacing from 12 to 32, interface text from 11 to 18 and code text from
/// 10 to 24 points.
pub fn normalize_sizes(graph_spacing: u8, interface_text_size: u8, code_text_size: u8) -> (r: (
    u8,
    u8,
    u8,
))
    ensures
        r == (
            clamped(graph_spacing, GRAPH_SPACING_MIN, GRAPH_SPACING_MAX),
            clamped(interface_text_size, INTERFACE_TEXT_MIN, INTERFACE_TEXT_MAX),
            clamped(code_text_size, CODE_TEXT_MIN, CODE_TEXT_MAX),
        ),
        INTERFACE_TEXT_MIN <= r.1 <= INTERFACE_TEXT_MAX && CODE_TEXT_MIN <= r.2 <= CODE_TEXT_MAX,
{
    (
        clamp_to(graph_spacing, GRAPH_SPACING_MIN, GRAPH_SPACING_MAX),
        clamp_to(interface_text_size, INTERFACE_TEXT_MIN, INTERFACE_TEXT_MAX),
        clamp_to(code_text_size, CODE_TEXT_MIN, CODE_TEXT_MAX),
    )
}

} // verus!
