use contexthub::git::{
    changed_files, is_white_space, marker_at, render_patch, short_hash, split_lines, strip_marker,
    trim, CommitInfo, DiffLine,
};
use contexthub::text::to_chars;

fn line(origin: char, content: &[u8]) -> DiffLine {
    DiffLine { origin, content: content.to_vec() }
}

#[test]
fn commit_record_is_built_from_its_parts() {
    let c = CommitInfo::from_parts(
        "0123456789abcdef0123456789abcdef01234567",
        Some("\n  Fix the parser\n\nDetails.\n\n"),
        Some("Grace"),
        1_700_000_000,
        vec!["ffff".to_string()],
    );
    assert_eq!(c.hash, "0123456789abcdef0123456789abcdef01234567");
    assert_eq!(c.short_hash, "0123456");
    assert_eq!(c.message, "Fix the parser\n\nDetails.");
    assert_eq!(c.author, "Grace");
    assert_eq!(c.date, 1_700_000_000);
    assert_eq!(c.parent_hashes, vec!["ffff".to_string()]);
}

#[test]
fn missing_message_and_author_get_their_defaults() {
    let c = CommitInfo::from_parts("abc", None, None, 0, vec![]);
    assert_eq!(c.message, "");
    assert_eq!(c.author, "Unknown");
    assert_eq!(c.short_hash, "abc");
    assert!(c.parent_hashes.is_empty());
}

#[test]
fn short_hash_is_the_first_seven_characters() {
    assert_eq!(short_hash("abcdefghij"), "abcdefg");
    assert_eq!(short_hash("abcdefg"), "abcdefg");
    assert_eq!(short_hash("abc"), "abc");
    assert_eq!(short_hash(""), "");
}

#[test]
fn trim_removes_white_space_at_both_ends_only() {
    assert_eq!(trim("  a b  "), "a b");
    assert_eq!(trim("\t\r\n x \u{a0}\u{3000}"), "x");
    assert_eq!(trim("   "), "");
    assert_eq!(trim(""), "");
    assert_eq!(trim("x"), "x");
    assert_eq!(trim("\u{200b}x"), "\u{200b}x");
}

#[test]
fn white_space_agrees_with_the_standard_library() {
    let mut n: u32 = 0;
    while n < 0x3100 {
        if let Some(c) = char::from_u32(n) {
            assert_eq!(is_white_space(c), c.is_whitespace());
        }
        n += 1;
    }
}

#[test]
fn lines_are_split_at_line_feeds() {
    let as_strings = |text: &str| -> Vec<String> {
        split_lines(&to_chars(text)).into_iter().map(|l| l.into_iter().collect()).collect()
    };
    assert_eq!(as_strings("a\nb\r\nc"), vec!["a", "b", "c"]);
    assert_eq!(as_strings("a\n\nb\n"), vec!["a", "", "b"]);
    assert_eq!(as_strings(""), Vec::<String>::new());
    assert_eq!(as_strings("\n"), vec![""]);
    assert_eq!(as_strings("last\r"), vec!["last\r"]);
    for text in ["a\nb\r\nc", "a\n\nb\n", "", "\n", "last\r", "\r\n\r\n", "x\r\r\ny"] {
        let expected: Vec<String> = text.lines().map(|l| l.to_string()).collect();
        assert_eq!(as_strings(text), expected);
    }
}

#[test]
fn markers_are_found_and_removed() {
    let chars = to_chars("+++ b/src/lib.rs");
    let marker = to_chars("+++ b/");
    assert!(marker_at(&chars, 0, &marker));
    assert!(!marker_at(&chars, 1, &marker));
    assert!(!marker_at(&chars, 14, &marker));
    let stripped: String = strip_marker(&chars, &marker).into_iter().collect();
    assert_eq!(stripped, "src/lib.rs");
    let twice: String =
        strip_marker(&to_chars("+++ b/a+++ b/b+++ b"), &marker).into_iter().collect();
    assert_eq!(twice, "ab+++ b");
    assert_eq!("+++ b/a+++ b/b+++ b".replace("+++ b/", ""), twice);
    let none: String = strip_marker(&chars, &to_chars("")).into_iter().collect();
    assert_eq!(none, "+++ b/src/lib.rs");
}

#[test]
fn changed_files_are_read_from_the_file_headers() {
    let diff = "diff --git a/src/a.rs b/src/a.rs\nindex 1..2 100644\n--- a/src/a.rs\n+++ b/src/a.rs\n@@ -1 +1 @@\n-old\n+new\ndiff --git a/new.txt b/new.txt\n--- /dev/null\n+++ b/new.txt\n@@ -0,0 +1 @@\n+hello\n";
    assert_eq!(changed_files(diff), vec!["src/a.rs".to_string(), "new.txt".to_string()]);
    assert!(changed_files("").is_empty());
    assert!(changed_files("no headers here\n+ added\n").is_empty());
    assert_eq!(changed_files("--- a/gone.rs\r\n+++ /dev/null\r\n"), vec!["gone.rs".to_string()]);
}

#[test]
fn patch_lines_carry_their_origin_marker() {
    let lines = vec![
        line('F', b"diff --git a/x b/x\n--- a/x\n+++ b/x\n"),
        line('H', b"@@ -1,2 +1,2 @@\n"),
        line(' ', b"same\n"),
        line('-', b"old\n"),
        line('+', b"new\n"),
        line('U', b"odd\n"),
    ];
    assert_eq!(
        render_patch(&lines),
        "diff --git a/x b/x\n--- a/x\n+++ b/x\n@@ -1,2 +1,2 @@\n same\n-old\n+new\nUodd\n"
    );
    assert_eq!(render_patch(&vec![]), "");
}

#[test]
fn patch_line_that_is_not_text_is_dropped() {
    let lines = vec![line('+', b"good\n"), line('+', &[0xff, 0xfe, b'\n']), line('-', "é\n".as_bytes())];
    assert_eq!(render_patch(&lines), "+good\n-é\n");
}
