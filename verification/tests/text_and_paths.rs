use gitturtle::paths::{path_components, path_is_absolute, path_starts_with, paths_equal};
use gitturtle::sorting::{sort_keyed, KeyedIndex};
use gitturtle::text::{bytes_before, char_is_control, char_is_white_space, prefix_within, trimmed};
use std::path::Path;

#[test]
fn character_classes_agree_with_std_for_every_scalar() {
    for value in 0..=0x10ffffu32 {
        if let Some(c) = char::from_u32(value) {
            assert_eq!(char_is_white_space(c), c.is_whitespace(), "{value:x}");
            assert_eq!(char_is_control(c), c.is_control(), "{value:x}");
        }
    }
}

#[test]
fn trimming_agrees_with_std() {
    for text in ["", "  ", " a ", "\u{3000}名前\u{2029}", "\tx\ny\r\n", "a b"] {
        assert_eq!(trimmed(text), text.trim());
    }
}

#[test]
fn byte_order_agrees_with_str_order() {
    let words = ["", "a", "ab", "b", "Z", "é", "école", "zeta", "z"];
    for a in words {
        for b in words {
            assert_eq!(bytes_before(a.as_bytes(), b.as_bytes()), a < b, "{a:?} {b:?}");
        }
    }
}

#[test]
fn path_comparison_agrees_with_std_paths() {
    let paths = [
        "/", "//", "/a", "/a/", "//a//b/", "/a/./b", "a", "./a", "a/.", ".", "", "/a/../b",
        "/a/b", "a/b", "./", "/a/b/c", "/ab",
    ];
    for a in paths {
        let pa = Path::new(a);
        assert_eq!(path_is_absolute(a.as_bytes()), pa.is_absolute(), "{a:?}");
        let components: Vec<Vec<u8>> = pa
            .components()
            .map(|c| c.as_os_str().as_encoded_bytes().to_vec())
            .collect();
        assert_eq!(path_components(a.as_bytes()), components, "{a:?}");
        for b in paths {
            let pb = Path::new(b);
            assert_eq!(paths_equal(a.as_bytes(), b.as_bytes()), pa == pb, "{a:?} {b:?}");
            assert_eq!(
                path_starts_with(a.as_bytes(), b.as_bytes()),
                pa.starts_with(pb),
                "{a:?} {b:?}"
            );
        }
    }
}

#[test]
fn prefixes_fit_their_budget_between_characters() {
    assert_eq!(prefix_within("héllo", 2), "h");
    assert_eq!(prefix_within("héllo", 3), "hé");
    assert_eq!(prefix_within("🐢🐢", 7), "🐢");
    assert_eq!(prefix_within("abc", 10), "abc");
    assert_eq!(prefix_within("abc", 0), "");
}

#[test]
fn sorting_is_stable_by_key_then_position() {
    let entries = vec![
        KeyedIndex { key: b"b".to_vec(), index: 0 },
        KeyedIndex { key: b"a".to_vec(), index: 1 },
        KeyedIndex { key: b"b".to_vec(), index: 2 },
        KeyedIndex { key: b"".to_vec(), index: 3 },
        KeyedIndex { key: b"ab".to_vec(), index: 4 },
    ];
    let order: Vec<usize> = sort_keyed(entries).iter().map(|e| e.index).collect();
    assert_eq!(order, vec![3, 1, 4, 0, 2]);
}
