//! Text rules of the document views: which files render as Markdown, which
//! language highlights a file, and how long blocks and accessible labels are
//! shortened.

use vstd::prelude::*;
use crate::paths::{file_name, path_components, views};
use crate::text::{chars_of, fit_count, prefix_within, push_char, push_text, utf8_len};

verus! {

/// The longest rendered block, in bytes.
pub const MAX_BLOCK_BYTES: usize = 16_384;

/// The longest accessible label of a model view, in bytes.
pub const MAX_ACCESSIBLE_BYTES: usize = 16_384;

/// The position of the last `.` in a file name.
pub open spec fn last_dot(name: Seq<u8>) -> Option<int>
    decreases name.len(),
{
    if name.len() == 0 {
        None
    } else if name.last() == 46 {
        Some(name.len() - 1)
    } else {
        last_dot(name.drop_last())
    }
}

/// `Path::extension`: what follows the last `.` of the file name, unless
/// that dot starts the name.
pub open spec fn extension(path: Seq<u8>) -> Option<Seq<u8>> {
    match file_name(path) {
        Some(name) => match last_dot(name) {
            Some(k) => if k == 0 {
                None
            } else {
                Some(name.subrange(k + 1, name.len() as int))
            },
            None => None,
        },
        None => None,
    }
}

pub open spec fn ascii_lower(b: u8) -> u8 {
    if 65 <= b <= 90 {
        (b + 32) as u8
    } else {
        b
    }
}

/// Whether `a`, ASCII letters taken case-insensitively, spells `word`.
pub open spec fn spells(a: Seq<u8>, word: Seq<u8>) -> bool {
    a.len() == word.len() && forall|i: int| 0 <= i < a.len() ==> ascii_lower(#[trigger] a[i])
        == word[i]
}

/// A file renders as Markdown when its extension is `md`, `markdown` or
/// `mdown`, in any ASCII case.
pub open spec fn markdown_path(path: Seq<u8>) -> bool {
    match extension(path) {
        Some(e) => spells(e, vstd::utf8::encode_utf8("md"@)) || spells(
            e,
            vstd::utf8::encode_utf8("markdown"@),
        ) || spells(e, vstd::utf8::encode_utf8("mdown"@)),
        None => false,
    }
}

fn find_last_dot(name: &[u8]) -> (r: Option<usize>)
    ensures
        match last_dot(name@) {
            Some(k) => r == Some(k as usize) && 0 <= k < name@.len(),
            None => r is None,
        },
{
    let mut end: usize = name.len();
    proof {
        assert(name@.take(end as int) =~= name@);
    }
    while end > 0
        invariant
            end <= name@.len(),
            last_dot(name@) == last_dot(name@.take(end as int)),
        decreases end,
    {
        let ghost prefix = name@.take(end as int);
        proof {
            assert(prefix.drop_last() =~= name@.take(end - 1));
            assert(prefix.last() == name@[end - 1]);
        }
        if name[end - 1] == 46 {
            return Some(end - 1);
        }
        end = end - 1;
    }
    proof {
        assert(name@.take(0) =~= Seq::<u8>::empty());
    }
    None
}

fn spells_word(a: &[u8], word: &[u8]) -> (r: bool)
    ensures
        r == spells(a@, word@),
{
    if a.len() != word.len() {
        return false;
    }
    let mut i: usize = 0;
    while i < a.len()
        invariant
            i <= a@.len(),
            a@.len() == word@.len(),
            forall|k: int| 0 <= k < i ==> ascii_lower(#[trigger] a@[k]) == word@[k],
        decreases a@.len() - i,
    {
        let b = a[i];
        let lower = if 65 <= b && b <= 90 {
            b + 32
        } else {
            b
        };
        if lower != word[i] {
            return false;
        }
        i = i + 1;
    }
    true
}

/// Whether a file renders as Markdown, by its extension.
pub fn is_markdown(path: &[u8]) -> (r: bool)
    ensures
        r == markdown_path(path@),
{
    let parts = path_components(path);
    if parts.len() == 0 {
        return false;
    }
    let last = parts.len() - 1;
    let name = parts[last].as_slice();
    proof {
        assert(views(parts@)[last as int] == name@);
    }
    let root = name.len() == 1 && name[0] == crate::paths::SEPARATOR;
    let current = name.len() == 1 && name[0] == crate::paths::DOT;
    let parent = name.len() == 2 && name[0] == crate::paths::DOT && name[1] == crate::paths::DOT;
    proof {
        if name@.len() == 1 {
            assert(name@ == seq![name@[0]]);
        }
        if name@.len() == 2 {
            assert(name@ == seq![name@[0], name@[1]]);
        }
    }
    if root || current || parent {
        return false;
    }
    match find_last_dot(name) {
        None => false,
        Some(k) => {
            if k == 0 {
                return false;
            }
            let mut e: Vec<u8> = Vec::new();
            let mut i: usize = k + 1;
            while i < name.len()
                invariant
                    k + 1 <= i <= name@.len(),
                    e@ == name@.subrange(k + 1, i as int),
                decreases name@.len() - i,
            {
                e.push(name[i]);
                i = i + 1;
                proof {
                    assert(e@ =~= name@.subrange(k + 1, i as int));
                }
            }
            spells_word(e.as_slice(), "md".as_bytes()) || spells_word(
                e.as_slice(),
                "markdown".as_bytes(),
            ) || spells_word(e.as_slice(), "mdown".as_bytes())
        },
    }
}

/// A rendered block: whole when it fits, otherwise the characters that fit
/// followed by a pointer to the source.
pub open spec fn bounded_block_text(s: Seq<char>) -> Seq<char> {
    if utf8_len(s) <= MAX_BLOCK_BYTES {
        s
    } else {
        s.take(fit_count(s, MAX_BLOCK_BYTES as int) as int) + "\n[Long block continues in Source]"@
    }
}

/// Shorten a rendered block to the bound, pointing to the source for the rest.
pub fn bounded_block(text: &str) -> (r: String)
    ensures
        r@ == bounded_block_text(text@),
{
    if text.as_bytes().len() <= MAX_BLOCK_BYTES {
        return text.to_owned();
    }
    let mut shortened = prefix_within(text, MAX_BLOCK_BYTES);
    push_text(&mut shortened, "\n[Long block continues in Source]");
    shortened
}

/// An accessible label: whole when it fits, otherwise cut so that with an
/// ellipsis it still fits.
pub open spec fn bounded_label_text(s: Seq<char>) -> Seq<char> {
    if utf8_len(s) <= MAX_ACCESSIBLE_BYTES {
        s
    } else {
        s.take(fit_count(s, MAX_ACCESSIBLE_BYTES - 3) as int).push('\u{2026}')
    }
}

/// Shorten an accessible label to the bound, ending it with an ellipsis.
pub fn bounded_accessible_text(text: String) -> (r: String)
    ensures
        r@ == bounded_label_text(text@),
{
    if text.as_str().as_bytes().len() <= MAX_ACCESSIBLE_BYTES {
        return text;
    }
    let mut shortened = prefix_within(text.as_str(), MAX_ACCESSIBLE_BYTES - 3);
    push_char(&mut shortened, '\u{2026}');
    shortened
}

/// A character's code after ASCII lowercasing: `A` to `Z` become `a` to
/// `z`, every other character stays.
pub open spec fn ascii_lower_code(c: char) -> u32 {
    if 65 <= c as u32 <= 90 {
        (c as u32 + 32) as u32
    } else {
        c as u32
    }
}

/// Whether `text` spells `word` ignoring ASCII case; `word` is lowercase.
pub open spec fn spells_lower(text: Seq<char>, word: Seq<char>) -> bool {
    text.len() == word.len() && forall|i: int|
        0 <= i < text.len() ==> ascii_lower_code(#[trigger] text[i]) == word[i] as u32
}

/// The highlighting language of a file extension, ignoring ASCII case.
pub open spec fn language_of(ext: Seq<char>) -> Seq<char> {
    if spells_lower(ext, "rs"@) {
        "rust"@
    } else if spells_lower(ext, "ts"@) || spells_lower(ext, "mts"@) || spells_lower(ext, "cts"@) {
        "typescript"@
    } else if spells_lower(ext, "tsx"@) {
        "tsx"@
    } else if spells_lower(ext, "js"@) || spells_lower(ext, "jsx"@) || spells_lower(ext, "mjs"@)
        || spells_lower(ext, "cjs"@) {
        "javascript"@
    } else if spells_lower(ext, "json"@) || spells_lower(ext, "jsonc"@) {
        "json"@
    } else if spells_lower(ext, "css"@) {
        "css"@
    } else if spells_lower(ext, "md"@) || spells_lower(ext, "markdown"@) || spells_lower(
        ext,
        "mdx"@,
    ) {
        "markdown"@
    } else if spells_lower(ext, "yaml"@) || spells_lower(ext, "yml"@) {
        "yaml"@
    } else if spells_lower(ext, "toml"@) {
        "toml"@
    } else if spells_lower(ext, "html"@) || spells_lower(ext, "htm"@) {
        "html"@
    } else if spells_lower(ext, "py"@) || spells_lower(ext, "pyw"@) {
        "python"@
    } else if spells_lower(ext, "go"@) {
        "go"@
    } else if spells_lower(ext, "sh"@) || spells_lower(ext, "bash"@) || spells_lower(ext, "zsh"@) {
        "bash"@
    } else {
        "text"@
    }
}

pub(crate) fn spells_word_lower(text: &Vec<char>, word: &str) -> (r: bool)
    ensures
        r == spells_lower(text@, word@),
{
    let w = chars_of(word);
    if text.len() != w.len() {
        return false;
    }
    let mut i: usize = 0;
    while i < text.len()
        invariant
            i <= text@.len(),
            text@.len() == w@.len(),
            w@ == word@,
            forall|k: int| 0 <= k < i ==> ascii_lower_code(#[trigger] text@[k]) == w@[k] as u32,
        decreases text@.len() - i,
    {
        let code = text[i] as u32;
        let lowered = if 65 <= code && code <= 90 {
            code + 32
        } else {
            code
        };
        if lowered != w[i] as u32 {
            return false;
        }
        i = i + 1;
    }
    true
}

/// The highlighting language of a file extension, ignoring ASCII case.
pub fn language_for(extension: &str) -> (r: &'static str)
    ensures
        r@ == language_of(extension@),
{
    let e = chars_of(extension);
    if spells_word_lower(&e, "rs") {
        "rust"
    } else if spells_word_lower(&e, "ts") || spells_word_lower(&e, "mts") || spells_word_lower(&e, "cts") {
        "typescript"
    } else if spells_word_lower(&e, "tsx") {
        "tsx"
    } else if spells_word_lower(&e, "js") || spells_word_lower(&e, "jsx") || spells_word_lower(&e, "mjs") || spells_word_lower(&e, "cjs") {
        "javascript"
    } else if spells_word_lower(&e, "json") || spells_word_lower(&e, "jsonc") {
        "json"
    } else if spells_word_lower(&e, "css") {
        "css"
    } else if spells_word_lower(&e, "md") || spells_word_lower(&e, "markdown") || spells_word_lower(&e, "mdx") {
        "markdown"
    } else if spells_word_lower(&e, "yaml") || spells_word_lower(&e, "yml") {
        "yaml"
    } else if spells_word_lower(&e, "toml") {
        "toml"
    } else if spells_word_lower(&e, "html") || spells_word_lower(&e, "htm") {
        "html"
    } else if spells_word_lower(&e, "py") || spells_word_lower(&e, "pyw") {
        "python"
    } else if spells_word_lower(&e, "go") {
        "go"
    } else if spells_word_lower(&e, "sh") || spells_word_lower(&e, "bash") || spells_word_lower(&e, "zsh") {
        "bash"
    } else {
        "text"
    }
}

} // verus!
