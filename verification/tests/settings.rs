use gitturtle::settings::{normalize_sizes, validate_settings};

const BRANCH_ERROR: &str = "Default branch must be a valid Git branch name, such as main or team/main";

#[test]
fn default_branches_follow_git_naming_rules() {
    for branch in [
        "-main", "HEAD", "@", "a b", "a..b", "a@{b", ".hidden", "a/.hidden", "a/b.lock", "a//b",
        "a\\b", "a?b", "a\nb", "main.", "/main", "main/", "a~b", "a^b", "a:b", "a*b", "a[b",
        "a\u{7f}b", "main.lock",
    ] {
        assert_eq!(
            validate_settings(13, 12, "", branch),
            Err(BRANCH_ERROR.to_owned()),
            "{branch:?}"
        );
    }
    for branch in ["main", "team/main", "release-v1.2", "développement", "a.lockb", "lock.a"] {
        assert_eq!(validate_settings(13, 12, "", branch), Ok(()), "{branch:?}");
    }
    assert_eq!(
        validate_settings(13, 12, "", ""),
        Err("Default branch must contain between 1 and 255 bytes".to_owned())
    );
    assert_eq!(
        validate_settings(13, 12, "", &"b".repeat(256)),
        Err("Default branch must contain between 1 and 255 bytes".to_owned())
    );
    assert_eq!(validate_settings(13, 12, "", &"b".repeat(255)), Ok(()));
}

#[test]
fn text_sizes_and_editor_commands_are_bounded() {
    let sizes = "Choose interface text from 11 to 18 points and code text from 10 to 24 points";
    assert_eq!(validate_settings(10, 12, "", "main"), Err(sizes.to_owned()));
    assert_eq!(validate_settings(19, 12, "", "main"), Err(sizes.to_owned()));
    assert_eq!(validate_settings(13, 9, "", "main"), Err(sizes.to_owned()));
    assert_eq!(validate_settings(13, 25, "", "main"), Err(sizes.to_owned()));
    assert_eq!(validate_settings(11, 24, "", "main"), Ok(()));
    assert_eq!(validate_settings(18, 10, "", "main"), Ok(()));
    let editor = "Editor must be an application name or executable path of at most 4,096 bytes";
    for command in ["code\n", "code\r", "co\0de"] {
        assert_eq!(validate_settings(13, 12, command, "main"), Err(editor.to_owned()));
    }
    assert_eq!(
        validate_settings(13, 12, &"e".repeat(4097), "main"),
        Err(editor.to_owned())
    );
    assert_eq!(validate_settings(13, 12, "/usr/bin/code --wait", "main"), Ok(()));
}

#[test]
fn loaded_sizes_are_brought_into_their_ranges() {
    assert_eq!(normalize_sizes(20, 0, 255), (20, 11, 24));
    assert_eq!(normalize_sizes(0, 13, 12), (12, 13, 12));
    assert_eq!(normalize_sizes(200, 99, 1), (32, 18, 10));
    let (_, interface, code) = normalize_sizes(20, 0, 255);
    assert!(validate_settings(interface, code, "", "main").is_ok());
}
