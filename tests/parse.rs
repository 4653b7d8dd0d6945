use diff_meta::parse::{
    get_file_change_description_from_diff_line, get_file_extension_from_diff_line,
    parse_hunk_metadata,
};

#[test]
fn test_get_file_extension_from_diff_line() {
    assert_eq!(
        get_file_extension_from_diff_line("diff --git a/src/main.rs b/src/main.rs"),
        Some("rs")
    );
}

#[test]
fn test_get_file_change_description_from_diff_line() {
    assert_eq!(
        get_file_change_description_from_diff_line("diff --git a/src/main.rs b/src/main.rs"),
        "src/main.rs"
    );
}

#[test]
fn test_parse_hunk_metadata() {
    assert_eq!(
        parse_hunk_metadata("@@ -74,15 +75,14 @@ pub fn delta(\n"),
        (" pub fn delta(\n".to_string(), "75".to_string())
    );
}

#[test]
fn extension_of_renamed_file_with_same_extension() {
    assert_eq!(
        get_file_extension_from_diff_line("diff --git a/src/old.rs b/lib/new.rs"),
        Some("rs")
    );
}

#[test]
fn extension_conflict_is_none() {
    assert_eq!(
        get_file_extension_from_diff_line("diff --git a/src/main.rs b/src/main.py"),
        None
    );
}

#[test]
fn extension_of_extensionless_file_is_its_name() {
    assert_eq!(
        get_file_extension_from_diff_line("diff --git a/Makefile b/Makefile"),
        Some("Makefile")
    );
}

#[test]
fn extension_of_dotfile_is_its_name() {
    assert_eq!(
        get_file_extension_from_diff_line("diff --git a/.bashrc b/.bashrc"),
        Some(".bashrc")
    );
}

#[test]
fn extension_uses_last_dot() {
    assert_eq!(
        get_file_extension_from_diff_line("diff --git a/x.tar.gz b/x.tar.gz"),
        Some("gz")
    );
}

#[test]
fn extension_of_deleted_file_comes_from_old_path() {
    assert_eq!(
        get_file_extension_from_diff_line("diff --git a/old.rs b/dev/null"),
        None
    );
    assert_eq!(
        get_file_extension_from_diff_line("diff --git a/old.rs"),
        Some("rs")
    );
}

#[test]
fn extension_with_fewer_than_four_tokens() {
    assert_eq!(get_file_extension_from_diff_line("diff --git"), None);
    assert_eq!(get_file_extension_from_diff_line(""), None);
}

#[test]
fn extension_of_directory_path_uses_last_component() {
    assert_eq!(
        get_file_extension_from_diff_line("diff --git a/src/lib.rs/ b/src/lib.rs/."),
        Some("rs")
    );
    assert_eq!(
        get_file_extension_from_diff_line("diff --git a/src/.. b/src/.."),
        None
    );
}

#[test]
fn description_deleted() {
    let d = get_file_change_description_from_diff_line("diff --git a/old.rs b//dev/null");
    assert_eq!(d, "deleted: old.rs");
    assert!(d.starts_with("deleted: "));
}

#[test]
fn description_added() {
    assert_eq!(
        get_file_change_description_from_diff_line("diff --git a//dev/null b/new.rs"),
        "added: new.rs"
    );
}

#[test]
fn description_renamed() {
    assert_eq!(
        get_file_change_description_from_diff_line("diff --git a/old.rs b/new.rs"),
        "renamed: old.rs ⟶  new.rs"
    );
}

#[test]
fn description_with_missing_paths() {
    assert_eq!(get_file_change_description_from_diff_line("diff --git a/x.rs"), "?");
    assert_eq!(get_file_change_description_from_diff_line("diff"), "?");
    assert_eq!(get_file_change_description_from_diff_line(""), "?");
}

#[test]
fn description_with_short_tokens() {
    assert_eq!(get_file_change_description_from_diff_line("diff --git a b"), "");
    assert_eq!(
        get_file_change_description_from_diff_line("diff --git a/é b/ü"),
        "renamed: é ⟶  ü"
    );
}

#[test]
fn hunk_without_plus() {
    assert_eq!(
        parse_hunk_metadata("@@ -74,15 @@ fn f()"),
        (" fn f()".to_string(), "".to_string())
    );
}

#[test]
fn hunk_without_comma() {
    assert_eq!(
        parse_hunk_metadata("@@ -1 +1 @@"),
        ("".to_string(), "".to_string())
    );
    assert_eq!(
        parse_hunk_metadata("@@ -1 +1 @@ x"),
        (" x".to_string(), "".to_string())
    );
}

#[test]
fn hunk_without_closing_marker() {
    assert_eq!(
        parse_hunk_metadata("@@ -3,4 +5,6"),
        ("".to_string(), "5".to_string())
    );
    assert_eq!(parse_hunk_metadata("plain text"), ("".to_string(), "".to_string()));
}

#[test]
fn hunk_context_stops_at_third_marker() {
    assert_eq!(
        parse_hunk_metadata("@@ -1,2 +3,4 @@ a @@ b"),
        (" a ".to_string(), "3".to_string())
    );
}

#[test]
fn parsing_twice_gives_the_same_results() {
    let line = "diff --git a/src/main.rs b/src/other.rs";
    assert_eq!(
        get_file_extension_from_diff_line(line),
        get_file_extension_from_diff_line(line)
    );
    assert_eq!(
        get_file_change_description_from_diff_line(line),
        get_file_change_description_from_diff_line(line)
    );
    let hunk = "@@ -74,15 +75,14 @@ pub fn delta(\n";
    assert_eq!(parse_hunk_metadata(hunk), parse_hunk_metadata(hunk));
}
