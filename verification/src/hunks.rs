//! Checks of the hunks of one diff of a patch: that each hunk changes some
//! line, that its line counts agree with its header, and that it opens with
//! three lines of context.
use vstd::prelude::*;

use crate::patch::{Diff, DiffView};
use crate::text::{chars_of, matches_at, occurs_at, views};
use vstd::string::StringExecFns;

verus! {

/// The kind of one line of a hunk.
#[derive(Debug, Clone, Copy, PartialEq, Eq, Structural)]
pub enum LineKind {
    /// A line added in the new file (`+`).
    Add,
    /// A line removed from the old file (`-`).
    Remove,
    /// A line kept from both files (` `).
    Context,
}

/// One hunk of a diff: the line counts that its header announces and the kinds of its lines.
#[derive(Debug)]
pub struct Hunk {
    /// The number of old-file lines that the header announces.
    pub old_count: u64,
    /// The number of new-file lines that the header announces.
    pub new_count: u64,
    /// The kinds of the hunk's lines, in order.
    pub lines: Vec<LineKind>,
}

/// What a [`Hunk`] holds, as mathematical values.
pub struct HunkView {
    pub old_count: u64,
    pub new_count: u64,
    pub lines: Seq<LineKind>,
}

impl View for Hunk {
    type V = HunkView;

    open spec fn view(&self) -> HunkView {
        HunkView { old_count: self.old_count, new_count: self.new_count, lines: self.lines@ }
    }
}

/// A diff of one file, as a unified diff reader splits it into hunks.
#[derive(Debug)]
pub struct FileDiff {
    /// The hunks, in order.
    pub hunks: Vec<Hunk>,
}

/// What is wrong with a hunk.
#[derive(Debug, Clone, Copy, PartialEq, Eq, Structural)]
pub enum IssueKind {
    /// The hunk does not start with three context lines.
    MissingContext,
    /// The hunk neither adds nor removes a line.
    NoModifiedLine,
    /// The new-file line count of the header does not match the lines.
    InvalidNewRange,
    /// The old-file line count of the header does not match the lines.
    InvalidOldRange,
}

/// One finding: which diff, which hunk, what.
#[derive(Debug, Clone, Copy, PartialEq, Eq, Structural)]
pub struct Issue {
    /// Index of the diff in the patch.
    pub diff: usize,
    /// Index of the hunk in the diff.
    pub hunk: usize,
    /// What is wrong.
    pub kind: IssueKind,
}

impl IssueKind {
    /// A missing context is a warning; the other findings are errors.
    pub fn is_warning(&self) -> (b: bool)
        ensures
            b == (*self == IssueKind::MissingContext),
    {
        match self {
            IssueKind::MissingContext => true,
            _ => false,
        }
    }
}

/// How many lines of kind `k` there are.
pub open spec fn count_of(lines: Seq<LineKind>, k: LineKind) -> nat
    decreases lines.len(),
{
    if lines.len() == 0 {
        0
    } else {
        count_of(lines.drop_last(), k) + if lines.last() == k {
            1nat
        } else {
            0nat
        }
    }
}

/// The hunk opens with three context lines.
pub open spec fn opens_with_context(lines: Seq<LineKind>) -> bool {
    lines[0] == LineKind::Context && lines[1] == LineKind::Context && lines[2] == LineKind::Context
}

/// The findings for one hunk, in the order they are checked.
pub open spec fn hunk_issues(h: HunkView, is_deletion: bool) -> Seq<IssueKind> {
    let adds = count_of(h.lines, LineKind::Add);
    let removes = count_of(h.lines, LineKind::Remove);
    let contexts = count_of(h.lines, LineKind::Context);
    (if h.lines.len() >= 3 && !is_deletion && !opens_with_context(h.lines) {
        seq![IssueKind::MissingContext]
    } else {
        seq![]
    }) + (if adds + removes == 0 {
        seq![IssueKind::NoModifiedLine]
    } else {
        seq![]
    }) + (if h.old_count + adds - removes != h.new_count {
        seq![IssueKind::InvalidNewRange]
    } else {
        seq![]
    }) + (if contexts + removes != h.old_count {
        seq![IssueKind::InvalidOldRange]
    } else {
        seq![]
    })
}

/// The findings for the hunks `0..n`, in order.
pub open spec fn diff_issues(diff: usize, hunks: Seq<HunkView>, n: int, is_deletion: bool) -> Seq<Issue>
    decreases n,
{
    if n <= 0 {
        seq![]
    } else {
        diff_issues(diff, hunks, n - 1, is_deletion) + hunk_issues(hunks[n - 1], is_deletion).map_values(
            |k: IssueKind| Issue { diff, hunk: (n - 1) as usize, kind: k },
        )
    }
}

/// The text that a unified diff reader is given for one diff of a patch.
pub open spec fn diff_text(d: DiffView) -> Seq<char> {
    "diff --git "@ + d.old_path + " "@ + d.new_path + "\n"@ + d.content + "\n"@
}


proof fn lemma_counts_filter(l: Seq<LineKind>)
    ensures
        count_of(l, LineKind::Context) + count_of(l, LineKind::Remove) == l.filter(
            |k: LineKind| k != LineKind::Add,
        ).len(),
        count_of(l, LineKind::Context) + count_of(l, LineKind::Add) == l.filter(
            |k: LineKind| k != LineKind::Remove,
        ).len(),
        count_of(l, LineKind::Add) + count_of(l, LineKind::Remove) == 0 <==> forall|i: int|
            0 <= i < l.len() ==> #[trigger] l[i] == LineKind::Context,
    decreases l.len(),
{
    reveal(Seq::filter);
    if l.len() > 0 {
        lemma_counts_filter(l.drop_last());
        if count_of(l, LineKind::Add) + count_of(l, LineKind::Remove) == 0 {
            assert forall|i: int| 0 <= i < l.len() implies #[trigger] l[i] == LineKind::Context by {
                if i < l.len() - 1 {
                    assert(l.drop_last()[i] == l[i]);
                }
            }
        }
        if forall|i: int| 0 <= i < l.len() ==> #[trigger] l[i] == LineKind::Context {
            assert forall|i: int| 0 <= i < l.drop_last().len() implies #[trigger] l.drop_last()[i]
                == LineKind::Context by {
                assert(l.drop_last()[i] == l[i]);
            }
            assert(l[l.len() - 1] == LineKind::Context);
        }
    }
}

/// A hunk is found to modify no line exactly when all its lines are context
/// lines: one added or removed line is a modified line.
pub proof fn law_no_modified_line_iff_only_context(h: HunkView, is_deletion: bool)
    ensures
        hunk_issues(h, is_deletion).contains(IssueKind::NoModifiedLine) <==> forall|i: int|
            0 <= i < h.lines.len() ==> #[trigger] h.lines[i] == LineKind::Context,
{
    lemma_counts_filter(h.lines);
    let i1 = if h.lines.len() >= 3 && !is_deletion && !opens_with_context(h.lines) {
        seq![IssueKind::MissingContext]
    } else {
        seq![]
    };
    let all = hunk_issues(h, is_deletion);
    if all.contains(IssueKind::NoModifiedLine) {
        let j = choose|j: int| 0 <= j < all.len() && all[j] == IssueKind::NoModifiedLine;
        assert(j == i1.len());
    }
    if forall|i: int| 0 <= i < h.lines.len() ==> #[trigger] h.lines[i] == LineKind::Context {
        assert(all[i1.len() as int] == IssueKind::NoModifiedLine);
    }
}

/// A hunk that changes at least one line, whose header counts as many old
/// lines as it has lines that are not added and as many new lines as it has
/// lines that are not removed, and that opens with three context lines
/// (where it has three lines and is not a deletion), has no finding.
pub proof fn law_sound_hunk_has_no_finding(h: HunkView, is_deletion: bool)
    requires
        exists|i: int| 0 <= i < h.lines.len() && #[trigger] h.lines[i] != LineKind::Context,
        h.old_count == h.lines.filter(|k: LineKind| k != LineKind::Add).len(),
        h.new_count == h.lines.filter(|k: LineKind| k != LineKind::Remove).len(),
        h.lines.len() >= 3 && !is_deletion ==> h.lines[0] == LineKind::Context && h.lines[1]
            == LineKind::Context && h.lines[2] == LineKind::Context,
    ensures
        hunk_issues(h, is_deletion).len() == 0,
{
    lemma_counts_filter(h.lines);
    assert(hunk_issues(h, is_deletion) =~= Seq::<IssueKind>::empty());
}

proof fn lemma_kind_counts(l: Seq<LineKind>)
    ensures
        count_of(l, LineKind::Add) == l.filter(|k: LineKind| k == LineKind::Add).len(),
        count_of(l, LineKind::Remove) == l.filter(|k: LineKind| k == LineKind::Remove).len(),
        count_of(l, LineKind::Context) == l.filter(|k: LineKind| k == LineKind::Context).len(),
    decreases l.len(),
{
    reveal(Seq::filter);
    if l.len() > 0 {
        lemma_kind_counts(l.drop_last());
    }
}

proof fn lemma_contains_split(x: Seq<IssueKind>, y: Seq<IssueKind>, k: IssueKind)
    ensures
        (x + y).contains(k) <==> x.contains(k) || y.contains(k),
{
    if (x + y).contains(k) {
        let j = choose|j: int| 0 <= j < (x + y).len() && (x + y)[j] == k;
        if j >= x.len() {
            assert(y[j - x.len()] == k);
        }
    }
    if x.contains(k) {
        let j = choose|j: int| 0 <= j < x.len() && x[j] == k;
        assert((x + y)[j] == k);
    }
    if y.contains(k) {
        let j = choose|j: int| 0 <= j < y.len() && y[j] == k;
        assert((x + y)[x.len() + j] == k);
    }
}

/// Where a finding comes among the findings of one hunk.
pub open spec fn issue_rank(k: IssueKind) -> int {
    match k {
        IssueKind::MissingContext => 0,
        IssueKind::NoModifiedLine => 1,
        IssueKind::InvalidNewRange => 2,
        IssueKind::InvalidOldRange => 3,
    }
}

/// `x` is empty or holds `k` alone.
spec fn at_most(x: Seq<IssueKind>, k: IssueKind) -> bool {
    x.len() == 0 || x == seq![k]
}

proof fn lemma_blocks_distinct(
    x1: Seq<IssueKind>,
    x2: Seq<IssueKind>,
    x3: Seq<IssueKind>,
    x4: Seq<IssueKind>,
)
    requires
        at_most(x1, IssueKind::MissingContext),
        at_most(x2, IssueKind::NoModifiedLine),
        at_most(x3, IssueKind::InvalidNewRange),
        at_most(x4, IssueKind::InvalidOldRange),
    ensures
        (x1 + x2 + x3 + x4).no_duplicates(),
        forall|a: int, b: int|
            0 <= a < b < (x1 + x2 + x3 + x4).len() ==> issue_rank((x1 + x2 + x3 + x4)[a])
                < issue_rank((x1 + x2 + x3 + x4)[b]),
{
    let all = x1 + x2 + x3 + x4;
    let n1 = x1.len() as int;
    let n2 = n1 + x2.len();
    let n3 = n2 + x3.len();
    assert forall|j: int| 0 <= j < all.len() implies (j < n1 ==> #[trigger] all[j]
        == IssueKind::MissingContext) && (n1 <= j < n2 ==> all[j] == IssueKind::NoModifiedLine)
        && (n2 <= j < n3 ==> all[j] == IssueKind::InvalidNewRange) && (n3 <= j ==> all[j]
        == IssueKind::InvalidOldRange) by {}
}

/// Each finding of a hunk, and no other, comes exactly when its rule is
/// broken, and none comes twice: a missing context when the hunk has three
/// lines or more, is not a deletion and one of its first three lines is not
/// a context line; no modified line when no line is added or removed; an
/// invalid new range when the old count, plus the added lines, minus the
/// removed lines, is not the new count; an invalid old range when the old
/// count is not the number of context and removed lines. They come in that
/// order.
pub proof fn law_hunk_findings(h: HunkView, is_deletion: bool)
    ensures
        hunk_issues(h, is_deletion).no_duplicates(),
        forall|a: int, b: int|
            0 <= a < b < hunk_issues(h, is_deletion).len() ==> issue_rank(
                #[trigger] hunk_issues(h, is_deletion)[a],
            ) < issue_rank(#[trigger] hunk_issues(h, is_deletion)[b]),
        hunk_issues(h, is_deletion).contains(IssueKind::MissingContext) <==> (h.lines.len() >= 3
            && !is_deletion && exists|i: int| 0 <= i < 3 && #[trigger] h.lines[i] != LineKind::Context),
        hunk_issues(h, is_deletion).contains(IssueKind::NoModifiedLine) <==> h.lines.filter(
            |k: LineKind| k == LineKind::Add,
        ).len() + h.lines.filter(|k: LineKind| k == LineKind::Remove).len() == 0,
        hunk_issues(h, is_deletion).contains(IssueKind::InvalidNewRange) <==> h.old_count
            + h.lines.filter(|k: LineKind| k == LineKind::Add).len() - h.lines.filter(
            |k: LineKind| k == LineKind::Remove,
        ).len() != h.new_count,
        hunk_issues(h, is_deletion).contains(IssueKind::InvalidOldRange) <==> h.lines.filter(
            |k: LineKind| k == LineKind::Context,
        ).len() + h.lines.filter(|k: LineKind| k == LineKind::Remove).len() != h.old_count,
{
    lemma_kind_counts(h.lines);
    let adds = count_of(h.lines, LineKind::Add);
    let removes = count_of(h.lines, LineKind::Remove);
    let contexts = count_of(h.lines, LineKind::Context);
    let c1 = h.lines.len() >= 3 && !is_deletion && !opens_with_context(h.lines);
    let c2 = adds + removes == 0;
    let c3 = h.old_count + adds - removes != h.new_count;
    let c4 = contexts + removes != h.old_count;
    let i1: Seq<IssueKind> = if c1 {
        seq![IssueKind::MissingContext]
    } else {
        seq![]
    };
    let i2: Seq<IssueKind> = if c2 {
        seq![IssueKind::NoModifiedLine]
    } else {
        seq![]
    };
    let i3: Seq<IssueKind> = if c3 {
        seq![IssueKind::InvalidNewRange]
    } else {
        seq![]
    };
    let i4: Seq<IssueKind> = if c4 {
        seq![IssueKind::InvalidOldRange]
    } else {
        seq![]
    };
    let all = hunk_issues(h, is_deletion);
    assert(all == i1 + i2 + i3 + i4);
    lemma_blocks_distinct(i1, i2, i3, i4);
    assert forall|k: IssueKind| #[trigger] all.contains(k) <==> (i1.contains(k) || i2.contains(k)
        || i3.contains(k) || i4.contains(k)) by {
        lemma_contains_split(i1 + i2 + i3, i4, k);
        lemma_contains_split(i1 + i2, i3, k);
        lemma_contains_split(i1, i2, k);
    }
    assert(i1.contains(IssueKind::MissingContext) == c1) by {
        if c1 {
            assert(i1[0] == IssueKind::MissingContext);
        }
    }
    assert(i2.contains(IssueKind::NoModifiedLine) == c2) by {
        if c2 {
            assert(i2[0] == IssueKind::NoModifiedLine);
        }
    }
    assert(i3.contains(IssueKind::InvalidNewRange) == c3) by {
        if c3 {
            assert(i3[0] == IssueKind::InvalidNewRange);
        }
    }
    assert(i4.contains(IssueKind::InvalidOldRange) == c4) by {
        if c4 {
            assert(i4[0] == IssueKind::InvalidOldRange);
        }
    }
    if h.lines.len() >= 3 && !opens_with_context(h.lines) {
        if h.lines[0] != LineKind::Context {
            assert(h.lines[0] != LineKind::Context);
        } else if h.lines[1] != LineKind::Context {
            assert(h.lines[1] != LineKind::Context);
        } else {
            assert(h.lines[2] != LineKind::Context);
        }
    }
}

/// The findings of the hunks `0..n` of a diff are exactly the findings of
/// each of those hunks, each marked with the diff's index and the hunk's
/// index, and they come hunk by hunk in order.
pub proof fn law_diff_findings(diff: usize, hunks: Seq<HunkView>, n: int, is_deletion: bool)
    requires
        0 <= n <= hunks.len(),
        n <= usize::MAX + 1,
    ensures
        forall|x: Issue| #[trigger]
            diff_issues(diff, hunks, n, is_deletion).contains(x) <==> (x.diff == diff && x.hunk
                < n && hunk_issues(hunks[x.hunk as int], is_deletion).contains(x.kind)),
        forall|a: int, b: int|
            0 <= a < b < diff_issues(diff, hunks, n, is_deletion).len() ==> (#[trigger] diff_issues(
                diff,
                hunks,
                n,
                is_deletion,
            )[a]).hunk <= (#[trigger] diff_issues(diff, hunks, n, is_deletion)[b]).hunk,
    decreases n,
{
    if n > 0 {
        law_diff_findings(diff, hunks, n - 1, is_deletion);
        let prev = diff_issues(diff, hunks, n - 1, is_deletion);
        let ks = hunk_issues(hunks[n - 1], is_deletion);
        let f = |k: IssueKind| Issue { diff, hunk: (n - 1) as usize, kind: k };
        let last = ks.map_values(f);
        let all = diff_issues(diff, hunks, n, is_deletion);
        assert(all == prev + last);
        assert forall|x: Issue| #[trigger] all.contains(x) <==> (x.diff == diff && x.hunk < n
            && hunk_issues(hunks[x.hunk as int], is_deletion).contains(x.kind)) by {
            if all.contains(x) {
                let j = choose|j: int| 0 <= j < all.len() && all[j] == x;
                if j < prev.len() {
                    assert(prev[j] == x);
                    assert(prev.contains(x));
                } else {
                    assert(last[j - prev.len()] == x);
                    assert(ks[j - prev.len()] == x.kind);
                    assert(ks.contains(x.kind));
                }
            }
            if x.diff == diff && x.hunk < n && hunk_issues(hunks[x.hunk as int], is_deletion).contains(
                x.kind,
            ) {
                if x.hunk < n - 1 {
                    assert(prev.contains(x));
                    let j = choose|j: int| 0 <= j < prev.len() && prev[j] == x;
                    assert(all[j] == x);
                } else {
                    let j = choose|j: int| 0 <= j < ks.len() && ks[j] == x.kind;
                    assert(last[j] == x);
                    assert(all[prev.len() + j] == x);
                }
            }
        }
        assert forall|a: int, b: int| 0 <= a < b < all.len() implies (#[trigger] all[a]).hunk <= (
        #[trigger] all[b]).hunk by {
            if a < prev.len() {
                assert(all[a] == prev[a]);
                assert(prev.contains(prev[a]));
            }
            if b < prev.len() {
                assert(all[b] == prev[b]);
            } else {
                assert(all[b] == last[b - prev.len()]);
            }
            if a >= prev.len() {
                assert(all[a] == last[a - prev.len()]);
            }
        }
    }
}

/// Counts the lines of each kind of a hunk.
fn count_lines(lines: &Vec<LineKind>) -> (r: (usize, usize, usize))
    ensures
        r.0 == count_of(lines@, LineKind::Add),
        r.1 == count_of(lines@, LineKind::Remove),
        r.2 == count_of(lines@, LineKind::Context),
        r.0 + r.1 + r.2 == lines.len(),
{
    let mut adds: usize = 0;
    let mut removes: usize = 0;
    let mut contexts: usize = 0;
    let mut i: usize = 0;
    while i < lines.len()
        invariant
            i <= lines.len(),
            adds == count_of(lines@.take(i as int), LineKind::Add),
            removes == count_of(lines@.take(i as int), LineKind::Remove),
            contexts == count_of(lines@.take(i as int), LineKind::Context),
            adds + removes + contexts == i,
        decreases lines.len() - i,
    {
        assert(lines@.take(i + 1).drop_last() =~= lines@.take(i as int));
        match lines[i] {
            LineKind::Add => adds += 1,
            LineKind::Remove => removes += 1,
            LineKind::Context => contexts += 1,
        }
        i += 1;
    }
    assert(lines@.take(lines.len() as int) =~= lines@);
    (adds, removes, contexts)
}

/// The findings for one hunk.
pub fn check_hunk(hunk: &Hunk, is_deletion: bool) -> (r: Vec<IssueKind>)
    ensures
        r@ == hunk_issues(hunk@, is_deletion),
{
    let mut issues: Vec<IssueKind> = Vec::new();
    if hunk.lines.len() >= 3 {
        let first_ok = hunk.lines[0] == LineKind::Context && hunk.lines[1] == LineKind::Context
            && hunk.lines[2] == LineKind::Context;
        if !is_deletion && !first_ok {
            issues.push(IssueKind::MissingContext);
        }
    }
    let (adds, removes, contexts) = count_lines(&hunk.lines);
    if adds + removes == 0 {
        issues.push(IssueKind::NoModifiedLine);
    }
    if hunk.old_count as u128 + adds as u128 != hunk.new_count as u128 + removes as u128 {
        issues.push(IssueKind::InvalidNewRange);
    }
    if contexts as u128 + removes as u128 != hunk.old_count as u128 {
        issues.push(IssueKind::InvalidOldRange);
    }
    assert(issues@ =~= hunk_issues(hunk@, is_deletion));
    issues
}

/// The findings for every hunk of a diff, or `None` when there are none.
pub fn check_patch(idx_diff: usize, diff: &FileDiff, is_deletion: bool) -> (r: Option<Vec<Issue>>)
    ensures
        match r {
            Some(issues) => issues@ == diff_issues(
                idx_diff,
                views(diff.hunks@),
                diff.hunks.len() as int,
                is_deletion,
            ) && issues@.len() > 0,
            None => diff_issues(
                idx_diff,
                views(diff.hunks@),
                diff.hunks.len() as int,
                is_deletion,
            ).len() == 0,
        },
{
    let mut issues: Vec<Issue> = Vec::new();
    let mut idx_hunk: usize = 0;
    while idx_hunk < diff.hunks.len()
        invariant
            idx_hunk <= diff.hunks.len(),
            issues@ == diff_issues(idx_diff, views(diff.hunks@), idx_hunk as int, is_deletion),
        decreases diff.hunks.len() - idx_hunk,
    {
        let kinds = check_hunk(&diff.hunks[idx_hunk], is_deletion);
        let ghost before = issues@;
        let mut j: usize = 0;
        while j < kinds.len()
            invariant
                j <= kinds.len(),
                idx_hunk < diff.hunks.len(),
                kinds@ == hunk_issues(diff.hunks@[idx_hunk as int]@, is_deletion),
                issues@ == before + kinds@.take(j as int).map_values(
                    |k: IssueKind| Issue { diff: idx_diff, hunk: idx_hunk, kind: k },
                ),
            decreases kinds.len() - j,
        {
            issues.push(Issue { diff: idx_diff, hunk: idx_hunk, kind: kinds[j] });
            assert(kinds@.take(j + 1).map_values(
                |k: IssueKind| Issue { diff: idx_diff, hunk: idx_hunk, kind: k },
            ) =~= kinds@.take(j as int).map_values(
                |k: IssueKind| Issue { diff: idx_diff, hunk: idx_hunk, kind: k },
            ).push(Issue { diff: idx_diff, hunk: idx_hunk, kind: kinds@[j as int] }));
            j += 1;
        }
        assert(kinds@.take(kinds.len() as int) =~= kinds@);
        assert(views(diff.hunks@)[idx_hunk as int] == diff.hunks@[idx_hunk as int]@);
        idx_hunk += 1;
    }
    if issues.len() == 0 {
        None
    } else {
        Some(issues)
    }
}

/// The text handed to a unified diff reader for one diff:
/// `diff --git <old> <new>\n<content>\n`.
pub fn single_diff_text(diff: &Diff) -> (r: String)
    ensures
        r@ == diff_text(diff@),
{
    let mut text = String::from_str("diff --git ");
    text.append(diff.old_path.as_str());
    text.append(" ");
    text.append(diff.new_path.as_str());
    text.append("\n");
    text.append(diff.content.as_str());
    text.append("\n");
    text
}

/// A diff whose content starts with `deleted` (a deleted file).
pub fn is_deletion(diff: &Diff) -> (b: bool)
    ensures
        b == occurs_at(diff.content@, 0, "deleted"@),
{
    let content = chars_of(diff.content.as_str());
    let deleted = chars_of("deleted");
    matches_at(&content, 0, &deleted)
}

} // verus!
