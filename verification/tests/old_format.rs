use lemming::format::patch::parse_patch;
use lemming::text::PatchError;

const OLD_MAIL: &str = "From 89abcdef Mon Sep 17 00:00:00 2001\n\
From: John Smith <john@example.org>\n\
Date: Tue, 2 Jan 2024 11:00:00 +0000\n\
Subject: [PATCH] Add things\n\
\n\
More words.\n\
---\n \
src/lib.rs | 4 +++-\n \
2 files changed, 7 insertions(+), 2 deletions(-)\n\
\n\
diff --git a/src/lib.rs b/src/lib.rs\n\
@@ -1 +1 @@\n\
-a\n\
+b\n\
diff --git a/src/main.rs b/src/main.rs\n\
@@ -2 +2 @@\n\
-c\n\
+d\n\
--\n\
2.40.0\n";

#[test]
fn old_layout_reads_a_whole_mail() {
    let (rest, patch) = parse_patch(OLD_MAIL).unwrap();
    assert_eq!(patch.commit_hash, "89abcdef");
    assert_eq!(patch.author, "John Smith");
    assert_eq!(patch.email, "john@example.org");
    assert_eq!(patch.date, "Tue, 2 Jan 2024 11:00:00 +0000");
    assert_eq!(patch.subject, "[PATCH] Add things");
    assert_eq!(patch.file_stats.len(), 1);
    assert_eq!(patch.file_stats[0].path, "src/lib.rs");
    assert_eq!(patch.file_stats[0].changed_lines, 4);
    assert_eq!(patch.insertions, 7);
    assert_eq!(patch.deletions, 2);
    assert_eq!(patch.diffs.len(), 2);
    assert_eq!(patch.diffs[0].old_path, "src/lib.rs");
    assert_eq!(patch.diffs[0].content, "@@ -1 +1 @@\n-a\n+b");
    assert_eq!(patch.diffs[1].new_path, "src/main.rs");
    assert_eq!(patch.diffs[1].content, "@@ -2 +2 @@\n-c\n+d");
    assert_eq!(rest, "\n--\n2.40.0\n");
}

#[test]
fn old_layout_last_diff_without_end_keeps_the_cursor() {
    let text = "From 1 x\nFrom: A <a>\nDate: d\nSubject: s\n---\n f | 1 +\n 1 files changed, 1 insertions(+)\n\ndiff --git a/f b/f\n+x\n";
    let (rest, patch) = parse_patch(text).unwrap();
    assert_eq!(patch.diffs.len(), 1);
    assert_eq!(patch.diffs[0].content, "+x\n");
    assert_eq!(rest, "+x\n");
}

#[test]
fn old_layout_needs_an_insertion_count() {
    let text = "From 1 x\nFrom: A <a>\nDate: d\nSubject: s\n---\n f | 1 +\n 1 files changed\n\n";
    assert_eq!(parse_patch(text).unwrap_err(), PatchError::Error);
}

#[test]
fn old_layout_rejects_non_hex_hash() {
    assert_eq!(parse_patch("From zz\n").unwrap_err(), PatchError::Error);
}

#[test]
fn old_layout_counts_by_name() {
    let text = "From 1a2b3c x\nFrom: Ann <a@x.org>\nDate: D\nSubject: Fix\n---\n a.txt | 3 ++-\n 2 files changed, 5 insertions(+), 3 deletions(-)\n\ndiff --git a/a.txt b/a.txt\n@@ -1 +1 @@\n-x\n+y\n";
    let (_, p) = parse_patch(text).unwrap();
    assert_eq!(p.commit_hash, "1a2b3c");
    assert_eq!(p.author, "Ann");
    assert_eq!(p.email, "a@x.org");
    assert_eq!(p.date, "D");
    assert_eq!(p.subject, "Fix");
    assert_eq!(p.file_stats.len(), 1);
    assert_eq!(p.file_stats[0].path, "a.txt");
    assert_eq!(p.file_stats[0].changed_lines, 3);
    assert_eq!(p.insertions, 5);
    assert_eq!(p.deletions, 3);
    assert_eq!(p.diffs.len(), 1);
    assert_eq!(p.diffs[0].old_path, "a.txt");
    assert_eq!(p.diffs[0].content, "@@ -1 +1 @@\n-x\n+y\n");
}

#[test]
fn old_layout_singular_counts() {
    let text = "From 1 x\nFrom: A <a>\nDate: d\nSubject: s\n---\n f  | 1 +\n 1 file changed, 1 insertion(+), 1 deletion(-)\n\n";
    let (_, p) = parse_patch(text).unwrap();
    assert_eq!(p.file_stats[0].path, "f");
    assert_eq!(p.insertions, 1);
    assert_eq!(p.deletions, 1);
}
