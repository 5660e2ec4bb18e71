use lemming::patch::{parse_commit_hash, parse_diff, parse_file, parse_many_diffs, parse_patch};
use lemming::text::{chars_of, PatchError};

const MAIL: &str = "From abc123 Mon Sep 17 00:00:00 2001\n\
From: A B <ab@example.com>\n\
Date: today\n\
Subject: [PATCH] t\n\
---\n \
x | 2 +-\n \
1 files changed, 1 insertions(+), 1 deletions(-)\n \
delete mode 100644 y\n\
\n\
diff --git a/x b/x\n\
-1\n\
+2\n\
diff --git a/y b/y\n\
deleted file mode 100644\n";

#[test]
fn mail_diffs_equal_rest_read_as_diffs() {
    let (rest, patch) = parse_file(MAIL).unwrap();
    let again = parse_many_diffs(rest);
    assert_eq!(patch.diffs.len(), again.len());
    for (a, b) in patch.diffs.iter().zip(again.iter()) {
        assert_eq!(a.old_path, b.old_path);
        assert_eq!(a.new_path, b.new_path);
        assert_eq!(a.content, b.content);
    }
    let meta = patch.metadata.unwrap();
    assert_eq!(meta.more_file_stats, vec!["delete mode 100644 y".to_string()]);
    assert_eq!(meta.deletions, 1);
}

#[test]
fn mail_is_read_the_same_by_both_entry_points() {
    let (rest1, p1) = parse_file(MAIL).unwrap();
    let (rest2, p2) = parse_patch(MAIL).unwrap();
    assert_eq!(rest1, rest2);
    assert_eq!(p1.diffs.len(), p2.diffs.len());
    assert_eq!(p1.metadata.unwrap().commit_hash, p2.metadata.unwrap().commit_hash);
}

#[test]
fn content_stops_at_next_header() {
    let diffs = parse_many_diffs("diff --git a/p b/q\nfirst\ndiff --git a/r b/s\nsecond");
    assert_eq!(diffs.len(), 2);
    for d in &diffs {
        assert!(!d.content.contains("\ndiff --git "));
    }
    assert_eq!(diffs[0].content, "first");
    assert_eq!(diffs[1].content, "second");
}

#[test]
fn content_stops_at_mail_end() {
    let diffs = parse_many_diffs("diff --git a/p b/q\nbody\n--\nsignature\n");
    assert_eq!(diffs.len(), 1);
    assert_eq!(diffs[0].content, "body");
}

#[test]
fn paths_are_single_words() {
    let diffs = parse_many_diffs("diff --git a/x  \tb/y z\nc");
    assert_eq!(diffs.len(), 1);
    assert_eq!(diffs[0].old_path, "x");
    assert_eq!(diffs[0].new_path, "y z");
    assert!(parse_many_diffs("diff --git a/my file b/other\n").is_empty());
}

#[test]
fn plain_text_is_never_rejected() {
    let (rest, patch) = parse_file("just some words").unwrap();
    assert_eq!(rest, "just some words");
    assert!(patch.metadata.is_none());
    assert!(patch.diffs.is_empty());
}

#[test]
fn written_diffs_read_back() {
    let ds = vec![
        ("src/a.rs", "src/a.rs", "index 1..2\n@@ -1 +1 @@\n-a\n+b\n--\nnot an end here"),
        ("x", "new name", ""),
        ("y", "y", "last\n"),
    ];
    let text = ds
        .iter()
        .map(|(o, n, c)| format!("diff --git a/{o} b/{n}\n{c}"))
        .collect::<Vec<_>>()
        .join("\n");
    let read = parse_many_diffs(&text);
    assert_eq!(read.len(), ds.len());
    for (d, (o, n, c)) in read.iter().zip(ds.iter()) {
        assert_eq!(d.old_path, *o);
        assert_eq!(d.new_path, *n);
        assert_eq!(d.content, *c);
    }
}

#[test]
fn commit_hash_line_shape() {
    let chars = chars_of("From abc12 Mon Sep 17\nnext");
    assert_eq!(parse_commit_hash(&chars, 0), Ok((22, "abc12".to_string())));
    let chars = chars_of("From abcg\n");
    assert_eq!(parse_commit_hash(&chars, 0), Ok((10, "abc".to_string())));
    assert_eq!(parse_commit_hash(&chars_of("From xyz\n"), 0), Err(PatchError::Error));
    assert_eq!(parse_commit_hash(&chars_of("From abc"), 0), Err(PatchError::Error));
}

#[test]
fn diff_decomposition_and_end() {
    let chars = chars_of("diff --git a/x \t b/y\nbody\n--\nsig");
    let (q, d) = parse_diff(&chars, 0).unwrap();
    assert_eq!(d.old_path, "x");
    assert_eq!(d.new_path, "y");
    assert_eq!(d.content, "body");
    assert_eq!(q, 25);
    assert!(parse_diff(&chars_of("diff --git x b/y\n"), 0).is_err());
}
