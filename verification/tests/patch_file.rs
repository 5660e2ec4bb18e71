use lemming::patch::{parse_file, parse_file_stats, parse_many_diffs, parse_patch, parse_summary};
use lemming::text::chars_of;
use lemming::text::PatchError;

const MAIL: &str = "From 0123abcdef Mon Sep 17 00:00:00 2001\n\
From: Jane Doe <jane@example.com>\n\
Date: Mon, 1 Jan 2024 10:00:00 +0100\n\
Subject: [PATCH] Fix thing\n\
\n\
Body text.\n\
---\n \
src/a.rs | 3 ++-\n \
src/b.rs | 1 +\n \
2 files changed, 3 insertions(+), 1 deletion(-)\n\
\n\
diff --git a/src/a.rs b/src/a.rs\n\
index 1..2 100644\n\
--- a/src/a.rs\n\
+++ b/src/a.rs\n\
@@ -1,3 +1,4 @@\n \
x\n\
-y\n\
+z\n\
+w\n \
q\n\
diff --git a/src/b.rs b/src/b.rs\n\
index 3..4 100644\n\
--- a/src/b.rs\n\
+++ b/src/b.rs\n\
@@ -1 +1,2 @@\n \
a\n\
+b\n\
--\n\
2.40.0\n";

#[test]
fn reads_a_whole_mail() {
    let (rest, patch) = parse_file(MAIL).unwrap();
    let meta = patch.metadata.as_ref().unwrap();
    assert_eq!(meta.commit_hash, "0123abcdef");
    assert_eq!(meta.author, "Jane Doe");
    assert_eq!(meta.email, "jane@example.com");
    assert_eq!(meta.date, "Mon, 1 Jan 2024 10:00:00 +0100");
    assert_eq!(meta.subject, "[PATCH] Fix thing\n\nBody text.\n");
    assert_eq!(meta.file_stats.len(), 2);
    assert_eq!(meta.file_stats[0].path, "src/a.rs");
    assert_eq!(meta.file_stats[0].changed_lines, 3);
    assert_eq!(meta.file_stats[1].path, "src/b.rs");
    assert_eq!(meta.file_stats[1].changed_lines, 1);
    assert_eq!(meta.files_changes, 2);
    assert_eq!(meta.insertions, 3);
    // the singular "1 deletion(-)" is counted too
    assert_eq!(meta.deletions, 1);
    assert!(meta.more_file_stats.is_empty());
    assert_eq!(patch.diffs.len(), 2);
    assert_eq!(patch.diffs[0].old_path, "src/a.rs");
    assert_eq!(patch.diffs[0].new_path, "src/a.rs");
    assert_eq!(
        patch.diffs[0].content,
        "index 1..2 100644\n--- a/src/a.rs\n+++ b/src/a.rs\n@@ -1,3 +1,4 @@\n x\n-y\n+z\n+w\n q"
    );
    assert_eq!(patch.diffs[1].old_path, "src/b.rs");
    assert_eq!(
        patch.diffs[1].content,
        "index 3..4 100644\n--- a/src/b.rs\n+++ b/src/b.rs\n@@ -1 +1,2 @@\n a\n+b"
    );
    assert!(rest.starts_with("diff --git a/src/a.rs"));
}

#[test]
fn plain_diffs_are_read_without_metadata() {
    let text = "diff --git a/x b/y\nbody1\ndiff --git a/z b/w\nbody2\n";
    let (rest, patch) = parse_file(text).unwrap();
    assert_eq!(rest, text);
    assert!(patch.metadata.is_none());
    assert_eq!(patch.diffs.len(), 2);
    assert_eq!(patch.diffs[0].old_path, "x");
    assert_eq!(patch.diffs[0].new_path, "y");
    assert_eq!(patch.diffs[0].content, "body1");
    assert_eq!(patch.diffs[1].old_path, "z");
    assert_eq!(patch.diffs[1].content, "body2\n");
}

#[test]
fn garbage_gives_no_diffs() {
    assert!(parse_many_diffs("hello\nworld\n").is_empty());
    assert!(parse_many_diffs("").is_empty());
}

#[test]
fn mail_without_hash_is_an_error() {
    assert_eq!(parse_file("From: someone\n").unwrap_err(), PatchError::Error);
    assert_eq!(parse_patch("nothing").unwrap_err(), PatchError::Error);
}

#[test]
fn huge_count_is_a_failure() {
    let text = "From abc x\nFrom: A <a@b>\nDate: d\nSubject: s\n---\n f | 99999999999999999999999 +\n 1 files changed\n\n";
    assert_eq!(parse_file(text).unwrap_err(), PatchError::Failure);
}

#[test]
fn summary_accepts_singular_labels() {
    let chars = chars_of(" 2 files changed, 1 insertion(+), 4 deletions(-)\n");
    assert_eq!(parse_summary(&chars, 0), Ok((chars.len(), (2, 1, 4))));
    let one = chars_of(" 1 file changed, 1 insertion(+), 1 deletion(-)\n");
    assert_eq!(parse_summary(&one, 0), Ok((one.len(), (1, 1, 1))));
    let none = chars_of(" 3 files changed\n");
    assert_eq!(parse_summary(&none, 0), Ok((none.len(), (3, 0, 0))));
}

#[test]
fn file_stat_path_loses_column_padding() {
    let chars = chars_of(" a.txt   |  3 ++-\n");
    let (q, stat) = parse_file_stats(&chars, 0).unwrap();
    assert_eq!(q, chars.len());
    assert_eq!(stat.path, "a.txt");
    assert_eq!(stat.changed_lines, 3);
}
