use gitpatch::{Line, Patch};
use lemming::hunks::LineKind::{Add, Context, Remove};
use lemming::patch::{parse_file, Diff};
use lemming::hunks::{
    check_hunk, check_patch, is_deletion, single_diff_text, FileDiff, Hunk, Issue, IssueKind,
    LineKind,
};

fn to_file_diff(patch: &Patch) -> FileDiff {
    FileDiff {
        hunks: patch
            .hunks
            .iter()
            .map(|h| Hunk {
                old_count: h.old_range.count,
                new_count: h.new_range.count,
                lines: h
                    .lines
                    .iter()
                    .map(|l| match l {
                        Line::Add(_) => LineKind::Add,
                        Line::Remove(_) => LineKind::Remove,
                        Line::Context(_) => LineKind::Context,
                    })
                    .collect(),
            })
            .collect(),
    }
}

/// Parses the text, then checks every diff; `Err` on the first diff that
/// does not read or has a finding.
fn check_on_patch_file(patch_content: &str) -> Result<(), String> {
    let (_, patch_file) = parse_file(patch_content).map_err(|e| format!("{e:?}"))?;
    for (idx_diff, one_diff) in patch_file.diffs.iter().enumerate() {
        let content = one_diff.content.strip_suffix('\n').unwrap_or(&one_diff.content);
        let diff = Diff {
            old_path: one_diff.old_path.clone(),
            new_path: one_diff.new_path.clone(),
            content: content.to_string(),
        };
        let text = single_diff_text(&diff);
        match Patch::from_single(&text) {
            Ok(p) => {
                if check_patch(idx_diff, &to_file_diff(&p), is_deletion(&diff)).is_some() {
                    return Err("Diff inside patch contains error".to_string());
                }
            }
            Err(_) => return Err("Patch contains error".to_string()),
        }
    }
    Ok(())
}

const GOOD: &str = "diff --git a/f.txt b/f.txt\n\
index 1..2 100644\n\
--- a/f.txt\n\
+++ b/f.txt\n\
@@ -1,4 +1,4 @@\n \
one\n \
two\n \
three\n\
-four\n\
+FOUR\n";

#[test]
fn clean_diff_passes_the_checks() {
    assert_eq!(check_on_patch_file(GOOD), Ok(()));
}

#[test]
fn wrong_range_is_reported() {
    let bad = GOOD.replace("@@ -1,4 +1,4 @@", "@@ -1,4 +1,5 @@");
    assert!(check_on_patch_file(&bad).is_err());
}

#[test]
fn diff_text_is_rendered_for_the_reader() {
    let d = Diff { old_path: "a".to_string(), new_path: "b".to_string(), content: "c".to_string() };
    assert_eq!(single_diff_text(&d), "diff --git a b\nc\n");
}

#[test]
fn deletion_is_recognised() {
    let d = Diff {
        old_path: "a".to_string(),
        new_path: "b".to_string(),
        content: "deleted file mode 100644".to_string(),
    };
    assert!(is_deletion(&d));
    let e = Diff { old_path: "a".to_string(), new_path: "b".to_string(), content: "index".to_string() };
    assert!(!is_deletion(&e));
}

#[test]
fn hunk_findings_in_order() {
    let h = Hunk { old_count: 5, new_count: 1, lines: vec![Add, Context, Context] };
    assert_eq!(
        check_hunk(&h, false),
        vec![IssueKind::MissingContext, IssueKind::InvalidNewRange, IssueKind::InvalidOldRange]
    );
    // a deletion is not asked for leading context
    assert_eq!(check_hunk(&h, true), vec![IssueKind::InvalidNewRange, IssueKind::InvalidOldRange]);
    let none = Hunk { old_count: 2, new_count: 2, lines: vec![Context, Context] };
    assert_eq!(check_hunk(&none, false), vec![IssueKind::NoModifiedLine]);
}

#[test]
fn check_patch_tags_findings_with_indices() {
    let ok = Hunk { old_count: 4, new_count: 4, lines: vec![Context, Context, Context, Remove, Add] };
    let bad = Hunk { old_count: 0, new_count: 2, lines: vec![Add] };
    let fd = FileDiff { hunks: vec![ok, bad] };
    assert_eq!(
        check_patch(3, &fd, true),
        Some(vec![Issue { diff: 3, hunk: 1, kind: IssueKind::InvalidNewRange }])
    );
    let fd2 = FileDiff {
        hunks: vec![Hunk { old_count: 1, new_count: 2, lines: vec![Context, Add] }],
    };
    assert_eq!(check_patch(0, &fd2, false), None);
    assert!(IssueKind::MissingContext.is_warning());
    assert!(!IssueKind::InvalidOldRange.is_warning());
}
