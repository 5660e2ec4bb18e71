//! Reading of patch files: mails made by `git format-patch`, and plain lists
//! of `diff --git` sections.
use vstd::prelude::*;

pub use crate::text::is_hex;
use crate::text::{
    advances, agrees, decimal_value, lemma_piece, lemma_halves, in_class, lemma_first_at_none, lemma_first_at_shift, is_hex_char, run_end, lemma_run_end_exact, lemma_first_at_exact, lemma_occurs_one, lemma_take_until_clean, chars_of, contains_seq, decimal_at, decimal_usize, find_from, first_at,
    group_shift, group_step_bounds, lemma_first_at_bounds, lemma_run_end_bounds,
    lemma_take_until_excludes, line_ending, matches_at, newline, newline_at, not_line_ending,
    occurs_at, one_char, read_agrees, shift, string_of, tag, tag_at, take_until, take_until_at,
    take_while, take_while1, take_while1_at, take_until_trimmed, take_until_trimmed_at, tag_either_at, take_while_at, views, within, CharClass, PatchError,
    Step,
};

verus! {

broadcast use group_step_bounds;

/// File statistics
#[derive(Debug)]
pub struct FileStat {
    /// path of file
    pub path: String,
    /// changed lines
    pub changed_lines: usize,
}

/// What a [`FileStat`] holds, as mathematical values.
pub struct FileStatView {
    pub path: Seq<char>,
    pub changed_lines: usize,
}

impl View for FileStat {
    type V = FileStatView;

    open spec fn view(&self) -> FileStatView {
        FileStatView { path: self.path@, changed_lines: self.changed_lines }
    }
}

/// Patch Metadata
#[derive(Debug)]
pub struct PatchMetadata {
    /// Commit hash
    pub commit_hash: String,
    /// Author
    pub author: String,
    /// Email
    pub email: String,
    /// Date
    pub date: String,
    /// Subject
    pub subject: String,
    /// File stats
    pub file_stats: Vec<FileStat>,
    /// More file stats (delete, rename)
    pub more_file_stats: Vec<String>,
    /// Number of files changes
    pub files_changes: usize,
    /// Number of insertions
    pub insertions: usize,
    /// Number of deletions
    pub deletions: usize,
}

/// What a [`PatchMetadata`] holds, as mathematical values.
pub struct PatchMetadataView {
    pub commit_hash: Seq<char>,
    pub author: Seq<char>,
    pub email: Seq<char>,
    pub date: Seq<char>,
    pub subject: Seq<char>,
    pub file_stats: Seq<FileStatView>,
    pub more_file_stats: Seq<Seq<char>>,
    pub files_changes: usize,
    pub insertions: usize,
    pub deletions: usize,
}

impl View for PatchMetadata {
    type V = PatchMetadataView;

    open spec fn view(&self) -> PatchMetadataView {
        PatchMetadataView {
            commit_hash: self.commit_hash@,
            author: self.author@,
            email: self.email@,
            date: self.date@,
            subject: self.subject@,
            file_stats: views(self.file_stats@),
            more_file_stats: views(self.more_file_stats@),
            files_changes: self.files_changes,
            insertions: self.insertions,
            deletions: self.deletions,
        }
    }
}

/// Diff
#[derive(Debug)]
pub struct Diff {
    /// Old path
    pub old_path: String,
    /// New path
    pub new_path: String,
    /// Content
    pub content: String,
}

/// What a [`Diff`] holds, as mathematical values.
pub struct DiffView {
    pub old_path: Seq<char>,
    pub new_path: Seq<char>,
    pub content: Seq<char>,
}

impl View for Diff {
    type V = DiffView;

    open spec fn view(&self) -> DiffView {
        DiffView { old_path: self.old_path@, new_path: self.new_path@, content: self.content@ }
    }
}

/// Patch file
#[derive(Debug)]
pub struct PatchFile {
    /// Patch metadata
    pub metadata: Option<PatchMetadata>,
    /// Diffs
    pub diffs: Vec<Diff>,
}

/// What a [`PatchFile`] holds, as mathematical values.
pub struct PatchFileView {
    pub metadata: Option<PatchMetadataView>,
    pub diffs: Seq<DiffView>,
}

impl View for PatchFile {
    type V = PatchFileView;

    open spec fn view(&self) -> PatchFileView {
        PatchFileView {
            metadata: match self.metadata {
                Some(m) => Some(m@),
                None => None,
            },
            diffs: views(self.diffs@),
        }
    }
}

// The grammar, one step per line kind.
/// `From <hash>...\n`: the hexadecimal commit hash.
pub open spec fn commit_hash_at(s: Seq<char>, p: int) -> Step<Seq<char>> {
    tag(s, p, "From "@).and_then(
        |p1: int, u: ()|
            take_while1(s, p1, CharClass::Hex).and_then(
                |p2: int, hash: Seq<char>|
                    take_until(s, p2, "\n"@).and_then(
                        |p3: int, x: Seq<char>|
                            newline(s, p3).and_then(|p4: int, v: ()| Step::Done(p4, hash)),
                    ),
            ),
    )
}

/// `From: <name> <<email>>\n`: the author's name and email.
pub open spec fn author_at(s: Seq<char>, p: int) -> Step<(Seq<char>, Seq<char>)> {
    tag(s, p, "From: "@).and_then(
        |p1: int, u: ()|
            take_until(s, p1, " <"@).and_then(
                |p2: int, name: Seq<char>|
                    tag(s, p2, " <"@).and_then(
                        |p3: int, v: ()|
                            take_until(s, p3, ">"@).and_then(
                                |p4: int, email: Seq<char>|
                                    tag(s, p4, ">\n"@).and_then(
                                        |p5: int, w: ()| Step::Done(p5, (name, email)),
                                    ),
                            ),
                    ),
            ),
    )
}

/// `Date: <date>\n`: the date.
pub open spec fn date_at(s: Seq<char>, p: int) -> Step<Seq<char>> {
    tag(s, p, "Date: "@).and_then(
        |p1: int, u: ()|
            take_until(s, p1, "\n"@).and_then(
                |p2: int, date: Seq<char>|
                    newline(s, p2).and_then(|p3: int, v: ()| Step::Done(p3, date)),
            ),
    )
}

/// `Subject: <subject>` up to (not including) the first `---`.
pub open spec fn subject_at(s: Seq<char>, p: int) -> Step<Seq<char>> {
    tag(s, p, "Subject: "@).and_then(|p1: int, u: ()| take_until(s, p1, "---"@))
}

/// ` <path> | <count> +++--\n`: the statistics line of one file; the path is
/// the text before ` | ` without the spaces that pad it to a column.
pub open spec fn file_stats_at(s: Seq<char>, p: int) -> Step<FileStatView> {
    take_while1(s, p, CharClass::Space).and_then(
        |p1: int, a: Seq<char>|
            take_until_trimmed(s, p1, " | "@).and_then(
                |p2: int, path: Seq<char>|
                    tag(s, p2, " | "@).and_then(
                        |p3: int, u: ()|
                            take_while(s, p3, CharClass::Space).and_then(
                                |p4: int, b: Seq<char>|
                                    take_while1(s, p4, CharClass::Digit).and_then(
                                        |p5: int, count: Seq<char>|
                                            take_while(s, p5, CharClass::Space).and_then(
                                                |p6: int, c: Seq<char>|
                                                    take_while(s, p6, CharClass::PlusMinus).and_then(
                                                        |p7: int, d: Seq<char>|
                                                            newline(s, p7).and_then(
                                                                |p8: int, v: ()|
                                                                    match decimal_usize(count) {
                                                                        Some(n) => Step::Done(
                                                                            p8,
                                                                            FileStatView {
                                                                                path,
                                                                                changed_lines: n,
                                                                            },
                                                                        ),
                                                                        None => Step::Failure,
                                                                    },
                                                            ),
                                                    ),
                                            ),
                                    ),
                            ),
                    ),
            ),
    )
}

/// Where the text of a diff ends: before the next `\ndiff --git `, else before
/// the `\n--\n` that closes a mail, else at the end of the input.
pub open spec fn diff_body_end(s: Seq<char>, p: int) -> int {
    match take_until(s, p, "\ndiff --git "@).or_else(take_until(s, p, "\n--\n"@)) {
        Step::Done(q, c) => q,
        _ => s.len() as int,
    }
}

/// `diff --git a/<old> b/<new>\n<content>`: one diff.
#[verifier::opaque]
pub open spec fn diff_at(s: Seq<char>, p: int) -> Step<DiffView> {
    tag(s, p, "diff --git "@).and_then(
        |p1: int, u: ()|
            tag(s, p1, "a/"@).and_then(
                |p2: int, v: ()|
                    take_until(s, p2, " "@).and_then(
                        |p3: int, old: Seq<char>|
                            take_while1(s, p3, CharClass::Space).and_then(
                                |p4: int, w: Seq<char>|
                                    tag(s, p4, "b/"@).and_then(
                                        |p5: int, x: ()|
                                            take_until(s, p5, "\n"@).and_then(
                                                |p6: int, new: Seq<char>|
                                                    newline(s, p6).and_then(
                                                        |p7: int, y: ()|
                                                            Step::Done(
                                                                diff_body_end(s, p7),
                                                                DiffView {
                                                                    old_path: old,
                                                                    new_path: new,
                                                                    content: s.subrange(
                                                                        p7,
                                                                        diff_body_end(s, p7),
                                                                    ),
                                                                },
                                                            ),
                                                    ),
                                            ),
                                    ),
                            ),
                    ),
            ),
    )
}


/// `, <count><label>`: one optional count of the summary line, its label in
/// the plural or in the singular form.
pub open spec fn labelled_count_at(s: Seq<char>, p: int, plural: Seq<char>, singular: Seq<char>) -> Step<
    Seq<char>,
> {
    tag(s, p, ", "@).and_then(
        |p1: int, u: ()|
            take_while1(s, p1, CharClass::Digit).and_then(
                |p2: int, count: Seq<char>|
                    tag(s, p2, plural).or_else(tag(s, p2, singular)).and_then(
                        |p3: int, v: ()| Step::Done(p3, count),
                    ),
            ),
    )
}

/// A count that may be absent; an absent one counts as zero.
pub open spec fn count_or_zero(c: Option<Seq<char>>) -> Option<usize> {
    match c {
        Some(d) => decimal_usize(d),
        None => Some(0),
    }
}

/// The three numbers of the summary line, or a failure where one does not fit in a `usize`.
pub open spec fn summary_numbers(
    q: int,
    files: Seq<char>,
    insertions: Option<Seq<char>>,
    deletions: Option<Seq<char>>,
) -> Step<(usize, usize, usize)> {
    match (decimal_usize(files), count_or_zero(insertions), count_or_zero(deletions)) {
        (Some(f), Some(i), Some(d)) => Step::Done(q, (f, i, d)),
        _ => Step::Failure,
    }
}

/// ` <n> files changed[, <i> insertions(+)][, <d> deletions(-)]...\n`, each
/// label also in the singular (`file changed`, `insertion(+)`, `deletion(-)`).
pub open spec fn summary_at(s: Seq<char>, p: int) -> Step<(usize, usize, usize)> {
    take_while1(s, p, CharClass::Space).and_then(
        |p1: int, a: Seq<char>|
            take_while1(s, p1, CharClass::Digit).and_then(
                |p2: int, files: Seq<char>|
                    tag(s, p2, " files changed"@).or_else(tag(s, p2, " file changed"@)).and_then(
                        |p3: int, u: ()|
                            labelled_count_at(
                                s,
                                p3,
                                " insertions(+)"@,
                                " insertion(+)"@,
                            ).optional(p3).and_then(
                                |p4: int, ins: Option<Seq<char>>|
                                    labelled_count_at(
                                        s,
                                        p4,
                                        " deletions(-)"@,
                                        " deletion(-)"@,
                                    ).optional(
                                        p4,
                                    ).and_then(
                                        |p5: int, del: Option<Seq<char>>|
                                            take_until(s, p5, "\n"@).and_then(
                                                |p6: int, rest: Seq<char>|
                                                    newline(s, p6).and_then(
                                                        |p7: int, v: ()|
                                                            summary_numbers(p7, files, ins, del),
                                                    ),
                                            ),
                                    ),
                            ),
                    ),
            ),
    )
}

/// Puts `pre` in front of the file statistics of a successful step.
pub open spec fn prepend_stats(
    pre: Seq<FileStatView>,
    o: Step<(Seq<FileStatView>, (usize, usize, usize))>,
) -> Step<(Seq<FileStatView>, (usize, usize, usize))> {
    match o {
        Step::Done(q, (more, sum)) => Step::Done(q, (pre + more, sum)),
        Step::Error => Step::Error,
        Step::Failure => Step::Failure,
    }
}

/// File statistics lines until the summary line: at each line the summary is
/// tried first; a line that is neither ends the whole step with an error.
pub open spec fn stats_at(s: Seq<char>, p: int) -> Step<(Seq<FileStatView>, (usize, usize, usize))>
    decreases s.len() - p,
{
    match summary_at(s, p) {
        Step::Done(q, sum) => Step::Done(q, (Seq::empty(), sum)),
        Step::Failure => Step::Failure,
        Step::Error => match file_stats_at(s, p) {
            Step::Done(q, fs) => if q == p {
                Step::Error
            } else {
                proof {
                    lemma_file_stats_advances(s, p);
                }
                prepend_stats(seq![fs], stats_at(s, q))
            },
            Step::Error => Step::Error,
            Step::Failure => Step::Failure,
        },
    }
}

/// ` <text>` and a line ending: one more statistics line (a deletion or a rename).
pub open spec fn extra_line_at(s: Seq<char>, p: int) -> Step<Seq<char>> {
    one_char(s, p, ' ').and_then(
        |p1: int, u: ()|
            not_line_ending(s, p1).and_then(
                |p2: int, line: Seq<char>|
                    line_ending(s, p2).and_then(|p3: int, v: ()| Step::Done(p3, line)),
            ),
    )
}

/// As many extra statistics lines as there are.
pub open spec fn extra_lines_at(s: Seq<char>, p: int) -> Step<Seq<Seq<char>>>
    decreases s.len() - p,
{
    match extra_line_at(s, p) {
        Step::Done(q, line) => if q == p {
            Step::Error
        } else {
            proof {
                lemma_extra_line_advances(s, p);
            }
            match extra_lines_at(s, q) {
                Step::Done(r, lines) => Step::Done(r, seq![line] + lines),
                Step::Error => Step::Error,
                Step::Failure => Step::Failure,
            }
        },
        Step::Error => Step::Done(p, Seq::empty()),
        Step::Failure => Step::Failure,
    }
}

/// After the summary: an empty line, or extra statistics lines and then an empty line.
pub open spec fn more_stats_at(s: Seq<char>, p: int) -> Step<Seq<Seq<char>>> {
    match newline(s, p) {
        Step::Done(q, u) => Step::Done(q, Seq::empty()),
        _ => extra_lines_at(s, p).and_then(
            |p1: int, lines: Seq<Seq<char>>|
                newline(s, p1).and_then(|p2: int, v: ()| Step::Done(p2, lines)),
        ),
    }
}

/// Diffs one after the other, each optionally followed by one `\n`, until
/// one does not read or the input ends.
pub open spec fn diffs_from(s: Seq<char>, p: int) -> Seq<DiffView>
    decreases s.len() - p,
{
    match diff_at(s, p) {
        Step::Done(q, d) => {
            let r = if newline(s, q) is Done {
                q + 1
            } else {
                q
            };
            if r == s.len() {
                seq![d]
            } else {
                proof {
                    lemma_diff_advances(s, p);
                }
                seq![d] + diffs_from(s, r)
            }
        },
        _ => Seq::empty(),
    }
}

/// A whole mail made by `git format-patch`.
pub open spec fn patch_at(s: Seq<char>, p: int) -> Step<PatchFileView> {
    commit_hash_at(s, p).and_then(
        |p1: int, hash: Seq<char>|
            author_at(s, p1).and_then(
                |p2: int, who: (Seq<char>, Seq<char>)|
                    date_at(s, p2).and_then(
                        |p3: int, date: Seq<char>|
                            subject_at(s, p3).and_then(
                                |p4: int, subject: Seq<char>|
                                    tag(s, p4, "---\n"@).and_then(
                                        |p5: int, u: ()|
                                            stats_at(s, p5).and_then(
                                                |
                                                    p6: int,
                                                    st: (Seq<FileStatView>, (usize, usize, usize)),
                                                |
                                                    more_stats_at(s, p6).and_then(
                                                        |p7: int, more: Seq<Seq<char>>|
                                                            Step::Done(
                                                                p7,
                                                                PatchFileView {
                                                                    metadata: Some(
                                                                        PatchMetadataView {
                                                                            commit_hash: hash,
                                                                            author: who.0,
                                                                            email: who.1,
                                                                            date,
                                                                            subject,
                                                                            file_stats: st.0,
                                                                            more_file_stats: more,
                                                                            files_changes: st.1.0,
                                                                            insertions: st.1.1,
                                                                            deletions: st.1.2,
                                                                        },
                                                                    ),
                                                                    diffs: diffs_from(s, p7),
                                                                },
                                                            ),
                                                    ),
                                            ),
                                    ),
                            ),
                    ),
            ),
    )
}

/// A patch file: a mail when the text starts with `From`, else a list of diffs.
pub open spec fn file_at(s: Seq<char>) -> Step<PatchFileView> {
    if occurs_at(s, 0, "From"@) {
        patch_at(s, 0)
    } else {
        Step::Done(0, PatchFileView { metadata: None, diffs: diffs_from(s, 0) })
    }
}

pub proof fn lemma_file_stats_advances(s: Seq<char>, p: int)
    ensures
        advances(file_stats_at(s, p), s, p),
{
}

pub proof fn lemma_extra_line_advances(s: Seq<char>, p: int)
    ensures
        advances(extra_line_at(s, p), s, p),
{
}

/// One turn of [`diffs_from`]: a diff that reads is followed by the diffs after it.
pub proof fn lemma_diffs_from_unfold(s: Seq<char>, p: int)
    ensures
        match diff_at(s, p) {
            Step::Done(q, d) => {
                let r = if newline(s, q) is Done {
                    q + 1
                } else {
                    q
                };
                &&& p < q <= s.len()
                &&& r <= s.len()
                &&& diffs_from(s, p) == if r == s.len() {
                    seq![d]
                } else {
                    seq![d] + diffs_from(s, r)
                }
            },
            _ => diffs_from(s, p) == Seq::<DiffView>::empty(),
        },
{
    lemma_diff_advances(s, p);
}

pub proof fn lemma_diff_advances(s: Seq<char>, p: int)
    ensures
        advances(diff_at(s, p), s, p),
{
    reveal(diff_at);
}

/// The text of a diff that reads ends right before the next diff header, so
/// the content never holds `\ndiff --git `.
pub proof fn lemma_body_has_no_header(s: Seq<char>, p: int)
    requires
        0 <= p <= s.len(),
    ensures
        p <= diff_body_end(s, p) <= s.len(),
        !contains_seq(s.subrange(p, diff_body_end(s, p)), "\ndiff --git "@),
{
    let pat = "\ndiff --git "@;
    let e = diff_body_end(s, p);
    lemma_first_at_bounds(s, pat, p);
    lemma_first_at_bounds(s, "\n--\n"@, p);
    let c = s.subrange(p, e);
    reveal_strlit("\ndiff --git ");
    assert forall|j: int| !occurs_at(c, j, pat) by {
        if occurs_at(c, j, pat) {
            assert(s.subrange(p + j, p + j + pat.len()) =~= c.subrange(j, j + pat.len()));
            assert(occurs_at(s, p + j, pat));
            match first_at(s, pat, p) {
                Some(i) => {
                    assert(e == i);
                    assert(p <= p + j < i);
                },
                None => {},
            }
        }
    }
}

/// How a diff that reads is made: its content is the text after its header
/// line up to where the reading stops.
pub proof fn lemma_diff_shape(s: Seq<char>, p: int)
    ensures
        diff_at(s, p) matches Step::Done(q, d) ==> exists|b: int|
            #![trigger diff_body_end(s, b)]
            0 <= p < b <= s.len() && q == diff_body_end(s, b) && d.content == s.subrange(
                b,
                diff_body_end(s, b),
            ),
{
    reveal(diff_at);
    if let Step::Done(q, d) = diff_at(s, p) {
        if let Step::Done(p1, u) = tag(s, p, "diff --git "@) {
            if let Step::Done(p2, v) = tag(s, p1, "a/"@) {
                if let Step::Done(p3, old) = take_until(s, p2, " "@) {
                    if let Step::Done(p4, w) = take_while1(s, p3, CharClass::Space) {
                        if let Step::Done(p5, x) = tag(s, p4, "b/"@) {
                            if let Step::Done(p6, new) = take_until(s, p5, "\n"@) {
                                if let Step::Done(p7, y) = newline(s, p6) {
                                    assert(diff_body_end(s, p7) == q);
                                }
                            }
                        }
                    }
                }
            }
        }
    }
}

/// No diff that [`parse_many_diffs`] (or a patch mail) yields holds a diff
/// header in its content: each content stops before the next `\ndiff --git `.
pub proof fn law_diff_content_stops_at_next_header(s: Seq<char>, p: int)
    ensures
        forall|i: int|
            0 <= i < diffs_from(s, p).len() ==> !contains_seq(
                #[trigger] diffs_from(s, p)[i].content,
                "\ndiff --git "@,
            ),
    decreases s.len() - p,
{
    lemma_diffs_from_unfold(s, p);
    lemma_diff_shape(s, p);
    if let Step::Done(q, d) = diff_at(s, p) {
        let b = choose|b: int|
            #![trigger diff_body_end(s, b)]
            0 <= p < b <= s.len() && q == diff_body_end(s, b) && d.content == s.subrange(
                b,
                diff_body_end(s, b),
            );
        lemma_body_has_no_header(s, b);
        let r = if newline(s, q) is Done {
            q + 1
        } else {
            q
        };
        if r != s.len() {
            law_diff_content_stops_at_next_header(s, r);
            assert forall|i: int| 0 <= i < diffs_from(s, p).len() implies !contains_seq(
                #[trigger] diffs_from(s, p)[i].content,
                "\ndiff --git "@,
            ) by {
                if i > 0 {
                    assert(diffs_from(s, p)[i] == diffs_from(s, r)[i - 1]);
                }
            }
        }
    }
}

/// A text that starts with `From` is read as a `git format-patch` mail:
/// [`parse_file`] and [`parse_patch`] give the same outcome on it.
pub proof fn law_mail_is_read_as_patch(s: Seq<char>)
    requires
        occurs_at(s, 0, "From"@),
    ensures
        file_at(s) == patch_at(s, 0),
{
}

/// A text that does not start with `From` is read as a list of diffs without
/// metadata, and such a reading never fails; nothing of it is consumed.
pub proof fn law_plain_text_is_never_rejected(s: Seq<char>)
    requires
        !occurs_at(s, 0, "From"@),
    ensures
        file_at(s) == Step::Done(0, PatchFileView { metadata: None, diffs: diffs_from(s, 0) }),
{
}

proof fn lemma_diff_body_shift(s: Seq<char>, k: int, p: int)
    requires
        0 <= k <= s.len(),
        0 <= p <= s.len() - k,
    ensures
        diff_body_end(s, p + k) == diff_body_end(s.skip(k), p) + k,
        s.subrange(p + k, diff_body_end(s, p + k)) == s.skip(k).subrange(
            p,
            diff_body_end(s.skip(k), p),
        ),
{
    broadcast use group_shift;

    let t = s.skip(k);
    lemma_body_has_no_header(t, p);
    let e = diff_body_end(t, p);
    assert(s.subrange(p + k, e + k) =~= t.subrange(p, e));
}

proof fn lemma_diff_shift(s: Seq<char>, k: int, p: int)
    requires
        0 <= k <= s.len(),
        0 <= p <= s.len() - k,
    ensures
        diff_at(s, p + k) == shift(diff_at(s.skip(k), p), k),
{
    broadcast use group_shift;

    reveal(diff_at);
    let t = s.skip(k);
    if let Step::Done(p1, u) = tag(t, p, "diff --git "@) {
        if let Step::Done(p2, v) = tag(t, p1, "a/"@) {
            if let Step::Done(p3, old) = take_until(t, p2, " "@) {
                if let Step::Done(p4, w) = take_while1(t, p3, CharClass::Space) {
                    if let Step::Done(p5, x) = tag(t, p4, "b/"@) {
                        if let Step::Done(p6, new) = take_until(t, p5, "\n"@) {
                            if let Step::Done(p7, y) = newline(t, p6) {
                                lemma_diff_body_shift(s, k, p7);
                            }
                        }
                    }
                }
            }
        }
    }
}

proof fn lemma_diffs_from_shift(s: Seq<char>, k: int, p: int)
    requires
        0 <= k <= s.len(),
        0 <= p <= s.len() - k,
    ensures
        diffs_from(s, p + k) == diffs_from(s.skip(k), p),
    decreases s.len() - k - p,
{
    broadcast use group_shift;

    let t = s.skip(k);
    lemma_diff_shift(s, k, p);
    lemma_diffs_from_unfold(s, p + k);
    lemma_diffs_from_unfold(t, p);
    if let Step::Done(q, d) = diff_at(t, p) {
        let r = if newline(t, q) is Done {
            q + 1
        } else {
            q
        };
        if r != t.len() {
            lemma_diffs_from_shift(s, k, r);
        }
    }
}

/// The diffs of a mail are what reading the rest of the text (as
/// [`parse_patch`] hands it back) as a list of diffs gives.
pub proof fn law_mail_diffs_are_the_rest_read_as_diffs(s: Seq<char>)
    ensures
        patch_at(s, 0) matches Step::Done(q, v) ==> v.diffs == diffs_from(s.skip(q), 0),
{
    if let Step::Done(q, v) = patch_at(s, 0) {
        lemma_patch_within(s);
        lemma_diffs_from_shift(s, q, 0);
    }
}

proof fn lemma_stats_within(s: Seq<char>, p: int)
    ensures
        within(stats_at(s, p), s, p),
    decreases s.len() - p,
{
    lemma_file_stats_advances(s, p);
    if summary_at(s, p) is Error {
        if let Step::Done(q, fs) = file_stats_at(s, p) {
            if q != p {
                lemma_stats_within(s, q);
            }
        }
    }
}

proof fn lemma_extra_lines_within(s: Seq<char>, p: int)
    requires
        0 <= p <= s.len(),
    ensures
        within(extra_lines_at(s, p), s, p),
    decreases s.len() - p,
{
    lemma_extra_line_advances(s, p);
    if let Step::Done(q, line) = extra_line_at(s, p) {
        if q != p {
            lemma_extra_lines_within(s, q);
        }
    }
}

proof fn lemma_patch_within(s: Seq<char>)
    ensures
        within(patch_at(s, 0), s, 0),
{
    if let Step::Done(p1, hash) = commit_hash_at(s, 0) {
        if let Step::Done(p2, who) = author_at(s, p1) {
            if let Step::Done(p3, date) = date_at(s, p2) {
                if let Step::Done(p4, subject) = subject_at(s, p3) {
                    if let Step::Done(p5, u) = tag(s, p4, "---\n"@) {
                        lemma_stats_within(s, p5);
                        if let Step::Done(p6, st) = stats_at(s, p5) {
                            lemma_extra_lines_within(s, p6);
                        }
                    }
                }
            }
        }
    }
}

/// The old path holds no space and the new path no line break.
pub open spec fn single_word_paths(d: DiffView) -> bool {
    &&& forall|j: int| 0 <= j < d.old_path.len() ==> #[trigger] d.old_path[j] != ' '
    &&& forall|j: int| 0 <= j < d.new_path.len() ==> #[trigger] d.new_path[j] != '\n'
}

/// The paths of a diff that reads: the old one stops at the first space, the
/// new one at the end of the header line.
pub proof fn lemma_diff_paths(s: Seq<char>, p: int)
    ensures
        diff_at(s, p) matches Step::Done(q, d) ==> single_word_paths(d),
{
    reveal(diff_at);
    reveal_strlit(" ");
    reveal_strlit("\n");
    assert(" "@ =~= seq![' ']);
    assert("\n"@ =~= seq!['\n']);
    if let Step::Done(p1, u) = tag(s, p, "diff --git "@) {
        if let Step::Done(p2, v) = tag(s, p1, "a/"@) {
            lemma_take_until_excludes(s, p2, ' ');
            if let Step::Done(p3, old) = take_until(s, p2, " "@) {
                if let Step::Done(p4, w) = take_while1(s, p3, CharClass::Space) {
                    if let Step::Done(p5, x) = tag(s, p4, "b/"@) {
                        lemma_take_until_excludes(s, p5, '\n');
                    }
                }
            }
        }
    }
}

/// Every diff read holds an old path without a space and a new path without
/// a line break.
pub proof fn law_diff_paths_are_single_words(s: Seq<char>, p: int)
    ensures
        forall|i: int|
            0 <= i < diffs_from(s, p).len() ==> single_word_paths(#[trigger] diffs_from(s, p)[i]),
    decreases s.len() - p,
{
    lemma_diffs_from_unfold(s, p);
    lemma_diff_paths(s, p);
    if let Step::Done(q, d) = diff_at(s, p) {
        let r = if newline(s, q) is Done {
            q + 1
        } else {
            q
        };
        if r != s.len() {
            law_diff_paths_are_single_words(s, r);
            assert forall|i: int| 1 <= i < diffs_from(s, p).len() implies diffs_from(s, p)[i]
                == diffs_from(s, r)[i - 1] by {}
        }
    }
}

/// A non-empty run of ASCII hexadecimal digits.
pub open spec fn is_hex_run(h: Seq<char>) -> bool {
    h.len() > 0 && forall|i: int| 0 <= i < h.len() ==> is_hex_char(#[trigger] h[i])
}

/// What may follow the hash on the `From ` line: no line break, and no
/// hexadecimal digit right after the hash.
pub open spec fn after_hash(x: Seq<char>) -> bool {
    &&& forall|i: int| 0 <= i < x.len() ==> #[trigger] x[i] != '\n'
    &&& x.len() > 0 ==> !is_hex_char(x[0])
}


/// A non-empty run of decimal digits.
pub open spec fn is_digit_run(d: Seq<char>) -> bool {
    d.len() > 0 && crate::text::all_digits(d)
}

proof fn lemma_summary_head(s: Seq<char>, p: int, n: Seq<char>, changed: Seq<char>)
    requires
        0 <= p,
        changed == " files changed"@ || changed == " file changed"@,
        is_digit_run(n),
        p + (" "@ + n + changed).len() <= s.len(),
        s.subrange(p, p + (" "@ + n + changed).len()) == " "@ + n + changed,
    ensures
        take_while1(s, p, CharClass::Space) == Step::Done(p + 1, seq![' ']),
        take_while1(s, p + 1, CharClass::Digit) == Step::Done(p + 1 + n.len(), n),
        tag(s, p + 1 + n.len(), " files changed"@).or_else(
            tag(s, p + 1 + n.len(), " file changed"@),
        ) == Step::Done(p + 1 + n.len() + changed.len(), ()),
{
    reveal_strlit(" ");
    reveal_strlit(" files changed");
    reveal_strlit(" file changed");
    let c = " "@ + n + changed;
    let p1 = p + 1;
    let p2 = p1 + n.len();
    let p3 = p2 + changed.len();
    lemma_piece(s, p, c, 0, c.len() as int);
    assert(c[0] == ' ');
    assert(c[1] == n[0]);
    assert(changed[0] == ' ');
    assert(c[p2 - p] == changed[0]);
    lemma_run_end_exact(s, p, p1, CharClass::Space);
    assert(s.subrange(p, p1) =~= seq![' ']);
    assert forall|i: int| p1 <= i < p2 implies crate::text::is_digit_char(#[trigger] s[i]) by {
        assert(c[i - p] == n[i - p1]);
    }
    lemma_run_end_exact(s, p1, p2, CharClass::Digit);
    lemma_piece(s, p, c, 1, 1 + n.len() as int);
    assert(c.subrange(1, 1 + n.len() as int) =~= n);
    lemma_piece(s, p, c, p2 - p, p3 - p);
    assert(c.subrange(p2 - p, p3 - p) =~= changed);
    if changed == " file changed"@ {
        assert(!occurs_at(s, p2, " files changed"@)) by {
            if occurs_at(s, p2, " files changed"@) {
                assert(s.subrange(p2, p2 + 14)[5] == 's');
                assert(s[p2 + 5] == changed[5]);
            }
        }
    }
}

/// A summary line ` <n> files changed, <d> deletions(-)\n` without an
/// insertions part reads as `n` changed files, no insertion and `d` deletions
/// (each label in its plural or singular form).
pub proof fn law_summary_deletions_alone(
    s: Seq<char>,
    p: int,
    n: Seq<char>,
    changed: Seq<char>,
    d: Seq<char>,
    label: Seq<char>,
)
    requires
        0 <= p,
        changed == " files changed"@ || changed == " file changed"@,
        label == " deletions(-)"@ || label == " deletion(-)"@,
        is_digit_run(n),
        is_digit_run(d),
        decimal_value(n) <= usize::MAX,
        decimal_value(d) <= usize::MAX,
        p + (" "@ + n + changed + ", "@ + d + label + "\n"@).len() <= s.len(),
        s.subrange(p, p + (" "@ + n + changed + ", "@ + d + label + "\n"@).len()) == " "@ + n
            + changed + ", "@ + d + label + "\n"@,
    ensures
        summary_at(s, p) == Step::Done(
            p + (" "@ + n + changed + ", "@ + d + label + "\n"@).len(),
            (decimal_value(n) as usize, 0usize, decimal_value(d) as usize),
        ),
{
    reveal_strlit(", ");
    let del = Some((d, label));
    assert(count_part(None) =~= Seq::<char>::empty());
    assert(" "@ + n + changed + count_part(None) + count_part(del) + "\n"@ =~= " "@ + n + changed
        + ", "@ + d + label + "\n"@);
    law_summary_line(s, p, n, changed, None, del);
}


/// The labels of the insertions count (`ins`) or of the deletions count, plural form.
pub open spec fn count_plural(ins: bool) -> Seq<char> {
    if ins {
        " insertions(+)"@
    } else {
        " deletions(-)"@
    }
}

/// The labels of the insertions count (`ins`) or of the deletions count, singular form.
pub open spec fn count_singular(ins: bool) -> Seq<char> {
    if ins {
        " insertion(+)"@
    } else {
        " deletion(-)"@
    }
}

/// An optional part `, <digits><label>` of a summary line.
pub open spec fn count_part(c: Option<(Seq<char>, Seq<char>)>) -> Seq<char> {
    match c {
        Some((d, label)) => ", "@ + d + label,
        None => Seq::empty(),
    }
}

/// The part is absent, or a run of digits with one of the two labels of its kind.
pub open spec fn valid_count_part(c: Option<(Seq<char>, Seq<char>)>, ins: bool) -> bool {
    match c {
        Some((d, label)) => is_digit_run(d) && (label == count_plural(ins) || label
            == count_singular(ins)),
        None => true,
    }
}

/// The number that a part gives: its digits' value; zero when it is absent.
pub open spec fn count_part_value(c: Option<(Seq<char>, Seq<char>)>) -> int {
    match c {
        Some((d, label)) => decimal_value(d),
        None => 0,
    }
}

pub(crate) proof fn lemma_count_part(s: Seq<char>, p: int, d: Seq<char>, label: Seq<char>, ins: bool)
    requires
        0 <= p,
        label == count_plural(ins) || label == count_singular(ins),
        is_digit_run(d),
        p + (", "@ + d + label).len() <= s.len(),
        s.subrange(p, p + (", "@ + d + label).len()) == ", "@ + d + label,
    ensures
        labelled_count_at(s, p, count_plural(ins), count_singular(ins)) == Step::Done(
            p + 2 + d.len() + label.len(),
            d,
        ),
        !ins ==> labelled_count_at(s, p, " insertions(+)"@, " insertion(+)"@) is Error,
{
    reveal_strlit(", ");
    reveal_strlit(" deletions(-)");
    reveal_strlit(" deletion(-)");
    reveal_strlit(" insertions(+)");
    reveal_strlit(" insertion(+)");
    let c = ", "@ + d + label;
    let p1 = p + 2;
    let p2 = p1 + d.len();
    let p3 = p2 + label.len();
    lemma_piece(s, p, c, 0, c.len() as int);
    lemma_piece(s, p, c, 0, 2);
    assert(c.subrange(0, 2) =~= ", "@);
    assert forall|i: int| p1 <= i < p2 implies crate::text::is_digit_char(#[trigger] s[i]) by {
        assert(c[i - p] == d[i - p1]);
    }
    assert(label[0] == ' ');
    assert(c[p2 - p] == label[0]);
    lemma_run_end_exact(s, p1, p2, CharClass::Digit);
    lemma_piece(s, p, c, 2, p2 - p);
    assert(c.subrange(2, p2 - p) =~= d);
    lemma_piece(s, p, c, p2 - p, p3 - p);
    assert(c.subrange(p2 - p, p3 - p) =~= label);
    assert(c[p2 + 1 - p] == label[1]);
    if !ins {
        assert(label[1] == 'd');
        assert(!occurs_at(s, p2, " insertions(+)"@)) by {
            if occurs_at(s, p2, " insertions(+)"@) {
                assert(s.subrange(p2, p2 + 14)[1] == 'i');
            }
        }
        assert(!occurs_at(s, p2, " insertion(+)"@)) by {
            if occurs_at(s, p2, " insertion(+)"@) {
                assert(s.subrange(p2, p2 + 13)[1] == 'i');
            }
        }
        if label == " deletion(-)"@ {
            assert(c[p2 + 9 - p] == label[9]);
            assert(!occurs_at(s, p2, " deletions(-)"@)) by {
                if occurs_at(s, p2, " deletions(-)"@) {
                    assert(s.subrange(p2, p2 + 13)[9] == 's');
                }
            }
        }
    } else {
        if label == " insertion(+)"@ {
            assert(c[p2 + 10 - p] == label[10]);
            assert(!occurs_at(s, p2, " insertions(+)"@)) by {
                if occurs_at(s, p2, " insertions(+)"@) {
                    assert(s.subrange(p2, p2 + 14)[10] == 's');
                }
            }
        }
    }
}

pub(crate) proof fn lemma_summary_line_end(s: Seq<char>, p: int)
    requires
        0 <= p < s.len(),
        s[p] == '\n',
    ensures
        forall|x: Seq<char>, y: Seq<char>| #[trigger] labelled_count_at(s, p, x, y) is Error,
        take_until(s, p, "\n"@) == Step::Done(p, Seq::<char>::empty()),
        newline(s, p) == Step::Done(p + 1, ()),
{
    reveal_strlit(", ");
    reveal_strlit("\n");
    assert(!occurs_at(s, p, ", "@)) by {
        if occurs_at(s, p, ", "@) {
            assert(s.subrange(p, p + 2)[0] == s[p]);
        }
    }
    assert("\n"@ =~= seq!['\n']);
    lemma_occurs_one(s, p, '\n');
    lemma_first_at_exact(s, "\n"@, p, p);
    assert(s.subrange(p, p) =~= Seq::<char>::empty());
}

/// The steps of a summary line, one after the other.
proof fn lemma_summary_compose(
    s: Seq<char>,
    p: int,
    n: Seq<char>,
    ins: Option<Seq<char>>,
    del: Option<Seq<char>>,
    p2: int,
    p3: int,
    p4: int,
    p5: int,
)
    requires
        take_while1(s, p, CharClass::Space) == Step::Done(p + 1, seq![' ']),
        take_while1(s, p + 1, CharClass::Digit) == Step::Done(p2, n),
        tag(s, p2, " files changed"@).or_else(tag(s, p2, " file changed"@)) == Step::Done(p3, ()),
        labelled_count_at(s, p3, " insertions(+)"@, " insertion(+)"@).optional(p3) == Step::Done(
            p4,
            ins,
        ),
        labelled_count_at(s, p4, " deletions(-)"@, " deletion(-)"@).optional(p4) == Step::Done(
            p5,
            del,
        ),
        take_until(s, p5, "\n"@) == Step::Done(p5, Seq::<char>::empty()),
        newline(s, p5) == Step::Done(p5 + 1, ()),
    ensures
        summary_at(s, p) == summary_numbers(p5 + 1, n, ins, del),
{
}

/// A summary line ` <n> files changed[, <i> insertions(+)][, <d> deletions(-)]\n`
/// (each label in its plural or singular form, each of the two counts
/// present or not, independently) reads as the numbers `n`, `i` and `d`,
/// an absent count reading as zero; where one of them does not fit in a
/// `usize`, reading fails.
#[verifier::rlimit(100)]
pub proof fn law_summary_line(
    s: Seq<char>,
    p: int,
    n: Seq<char>,
    changed: Seq<char>,
    ins: Option<(Seq<char>, Seq<char>)>,
    del: Option<(Seq<char>, Seq<char>)>,
)
    requires
        0 <= p,
        changed == " files changed"@ || changed == " file changed"@,
        is_digit_run(n),
        valid_count_part(ins, true),
        valid_count_part(del, false),
        p + (" "@ + n + changed + count_part(ins) + count_part(del) + "\n"@).len() <= s.len(),
        s.subrange(p, p + (" "@ + n + changed + count_part(ins) + count_part(del) + "\n"@).len())
            == " "@ + n + changed + count_part(ins) + count_part(del) + "\n"@,
    ensures
        summary_at(s, p) == if decimal_value(n) <= usize::MAX && count_part_value(ins)
            <= usize::MAX && count_part_value(del) <= usize::MAX {
            Step::Done(
                p + (" "@ + n + changed + count_part(ins) + count_part(del) + "\n"@).len(),
                (
                    decimal_value(n) as usize,
                    count_part_value(ins) as usize,
                    count_part_value(del) as usize,
                ),
            )
        } else {
            Step::Failure
        },
{
    reveal_strlit(" ");
    reveal_strlit(", ");
    reveal_strlit("\n");
    let h = " "@ + n + changed;
    let ti = count_part(ins);
    let td = count_part(del);
    let c = h + ti + td + "\n"@;
    assert(h.len() == 1 + n.len() + changed.len());
    assert(c =~= h + (ti + td + "\n"@));
    lemma_halves(s, p, h, ti + td + "\n"@);
    lemma_summary_head(s, p, n, changed);
    let p3 = p + h.len();
    let p4 = p3 + ti.len();
    let p5 = p4 + td.len();
    assert(ti + td + "\n"@ =~= ti + (td + "\n"@));
    lemma_halves(s, p3, ti, td + "\n"@);
    lemma_halves(s, p4, td, "\n"@);
    assert(td + "\n"@ =~= td + "\n"@);
    lemma_piece(s, p4, td + "\n"@, td.len() as int, td.len() + 1int);
    assert((td + "\n"@)[td.len() as int] == '\n');
    assert(s[p5] == '\n');
    lemma_summary_line_end(s, p5);
    let oi: Option<Seq<char>> = match ins {
        Some((d, l)) => Some(d),
        None => None,
    };
    let od: Option<Seq<char>> = match del {
        Some((d, l)) => Some(d),
        None => None,
    };
    match ins {
        Some((d, l)) => {
            assert(ti =~= ", "@ + d + l);
            lemma_count_part(s, p3, d, l, true);
            assert(count_plural(true) == " insertions(+)"@);
            assert(labelled_count_at(s, p3, " insertions(+)"@, " insertion(+)"@) == Step::Done(p4, d));
        },
        None => {
            if let Some((d, l)) = del {
                assert(td =~= ", "@ + d + l);
                lemma_count_part(s, p3, d, l, false);
            } else {
                assert(labelled_count_at(s, p3, " insertions(+)"@, " insertion(+)"@) is Error);
            }
        },
    }
    assert(labelled_count_at(s, p3, " insertions(+)"@, " insertion(+)"@).optional(p3)
        == Step::Done(p4, oi));
    match del {
        Some((d, l)) => {
            assert(td =~= ", "@ + d + l);
            lemma_count_part(s, p4, d, l, false);
            assert(labelled_count_at(s, p4, " deletions(-)"@, " deletion(-)"@) == Step::Done(p5, d));
        },
        None => {
            assert(labelled_count_at(s, p4, " deletions(-)"@, " deletion(-)"@) is Error);
        },
    }
    assert(labelled_count_at(s, p4, " deletions(-)"@, " deletion(-)"@).optional(p4)
        == Step::Done(p5, od));
    assert(c.len() == p5 + 1 - p);
    lemma_summary_compose(s, p, n, oi, od, p + 1 + n.len(), p3, p4, p5);
}

/// A path as a statistics line shows it: not empty, not starting with a space
/// or a tab, without `|`, and not ending with a space.
pub open spec fn stat_path(path: Seq<char>) -> bool {
    &&& path.len() > 0
    &&& !in_class(CharClass::Space, path[0])
    &&& forall|i: int| 0 <= i < path.len() ==> #[trigger] path[i] != '|'
    &&& path.last() != ' '
}

/// Every character of `x` is of class `k`.
pub open spec fn all_of(x: Seq<char>, k: CharClass) -> bool {
    forall|i: int| 0 <= i < x.len() ==> in_class(k, #[trigger] x[i])
}

pub proof fn lemma_stat_head(s: Seq<char>, p: int, path: Seq<char>)
    requires
        0 <= p,
        stat_path(path),
        p + (" "@ + path + " | "@).len() < s.len(),
        s.subrange(p, p + (" "@ + path + " | "@).len()) == " "@ + path + " | "@,
    ensures
        take_while1(s, p, CharClass::Space) == Step::Done(p + 1, seq![' ']),
        take_until_trimmed(s, p + 1, " | "@) == Step::Done(p + 1 + path.len(), path),
        tag(s, p + 1 + path.len(), " | "@) == Step::Done(p + 4 + path.len(), ()),
{
    reveal_strlit(" ");
    reveal_strlit(" | ");
    let c = " "@ + path + " | "@;
    let p1 = p + 1;
    let p2 = p1 + path.len();
    lemma_piece(s, p, c, 0, c.len() as int);
    assert(c[1] == path[0]);
    lemma_run_end_exact(s, p, p1, CharClass::Space);
    assert(s.subrange(p, p1) =~= seq![' ']);
    lemma_piece(s, p, c, p2 - p, c.len() as int);
    assert(c.subrange(p2 - p, c.len() as int) =~= " | "@);
    assert forall|j: int| p1 <= j < p2 implies !#[trigger] occurs_at(s, j, " | "@) by {
        if occurs_at(s, j, " | "@) {
            assert(s.subrange(j, j + 3)[1] == '|');
            if j + 1 < p2 {
                assert(c[j + 1 - p] == path[j + 1 - p1]);
            } else {
                assert(c[j + 1 - p] == ' ');
            }
        }
    }
    lemma_first_at_exact(s, " | "@, p1, p2);
    lemma_piece(s, p, c, 1, p2 - p);
    assert(c.subrange(1, p2 - p) =~= path);
    assert(crate::text::trim_spaces_end(path) == path);
}

#[verifier::rlimit(60)]
pub proof fn lemma_stat_tail(s: Seq<char>, p: int, digits: Seq<char>, sp: Seq<char>, bar: Seq<char>)
    requires
        0 <= p,
        is_digit_run(digits),
        all_of(sp, CharClass::Space),
        all_of(bar, CharClass::PlusMinus),
        p + (digits + sp + bar + "\n"@).len() <= s.len(),
        s.subrange(p, p + (digits + sp + bar + "\n"@).len()) == digits + sp + bar + "\n"@,
    ensures
        take_while(s, p, CharClass::Space) == Step::Done(p, Seq::<char>::empty()),
        take_while1(s, p, CharClass::Digit) == Step::Done(p + digits.len(), digits),
        take_while(s, p + digits.len(), CharClass::Space) == Step::Done(
            p + digits.len() + sp.len(),
            sp,
        ),
        take_while(s, p + digits.len() + sp.len(), CharClass::PlusMinus) == Step::Done(
            p + digits.len() + sp.len() + bar.len(),
            bar,
        ),
        newline(s, p + digits.len() + sp.len() + bar.len()) == Step::Done(
            p + digits.len() + sp.len() + bar.len() + 1,
            (),
        ),
        sp.len() > 0 ==> take_while1(s, p + digits.len(), CharClass::Space) == Step::Done(
            p + digits.len() + sp.len(),
            sp,
        ),
        bar.len() > 0 ==> take_while1(s, p + digits.len() + sp.len(), CharClass::PlusMinus)
            == Step::Done(p + digits.len() + sp.len() + bar.len(), bar),
{
    reveal_strlit("\n");
    let c = digits + sp + bar + "\n"@;
    let p1 = p + digits.len();
    let p2 = p1 + sp.len();
    let p3 = p2 + bar.len();
    lemma_piece(s, p, c, 0, c.len() as int);
    assert(c[0] == digits[0]);
    assert(crate::text::is_digit_char(digits[0]));
    lemma_run_end_exact(s, p, p, CharClass::Space);
    assert(s.subrange(p, p) =~= Seq::<char>::empty());
    assert forall|i: int| p <= i < p1 implies crate::text::is_digit_char(#[trigger] s[i]) by {
        assert(c[i - p] == digits[i - p]);
    }
    assert forall|i: int| p1 <= i < p2 implies in_class(CharClass::Space, #[trigger] s[i]) by {
        assert(c[i - p] == sp[i - p1]);
    }
    assert forall|i: int| p2 <= i < p3 implies in_class(CharClass::PlusMinus, #[trigger] s[i]) by {
        assert(c[i - p] == bar[i - p2]);
    }
    assert(s[p3] == '\n') by {
        assert(c[p3 - p] == '\n');
    }
    if sp.len() > 0 {
        assert(c[p1 - p] == sp[0]);
    } else if bar.len() > 0 {
        assert(c[p1 - p] == bar[0]);
    }
    if bar.len() > 0 {
        assert(c[p2 - p] == bar[0]);
    }
    lemma_run_end_exact(s, p, p1, CharClass::Digit);
    lemma_run_end_exact(s, p1, p2, CharClass::Space);
    lemma_run_end_exact(s, p2, p3, CharClass::PlusMinus);
    lemma_piece(s, p, c, 0, p1 - p);
    assert(c.subrange(0, p1 - p) =~= digits);
    lemma_piece(s, p, c, p1 - p, p2 - p);
    assert(c.subrange(p1 - p, p2 - p) =~= sp);
    lemma_piece(s, p, c, p2 - p, p3 - p);
    assert(c.subrange(p2 - p, p3 - p) =~= bar);
}

/// A statistics line ` <path> | <count><spaces><bar>\n`, whose `+`/`-` bar may
/// be empty (a file with no changed line), reads as the path and the count's
/// value; only a count that does not fit in a `usize` is a failure.
#[verifier::rlimit(60)]
pub proof fn law_file_stat_line(
    s: Seq<char>,
    p: int,
    path: Seq<char>,
    digits: Seq<char>,
    sp: Seq<char>,
    bar: Seq<char>,
)
    requires
        0 <= p,
        stat_path(path),
        is_digit_run(digits),
        all_of(sp, CharClass::Space),
        all_of(bar, CharClass::PlusMinus),
        p + (" "@ + path + " | "@ + digits + sp + bar + "\n"@).len() <= s.len(),
        s.subrange(p, p + (" "@ + path + " | "@ + digits + sp + bar + "\n"@).len()) == " "@ + path
            + " | "@ + digits + sp + bar + "\n"@,
    ensures
        file_stats_at(s, p) == if decimal_value(digits) <= usize::MAX {
            Step::Done(
                p + (" "@ + path + " | "@ + digits + sp + bar + "\n"@).len(),
                FileStatView { path, changed_lines: decimal_value(digits) as usize },
            )
        } else {
            Step::Failure
        },
{
    reveal_strlit(" ");
    reveal_strlit(" | ");
    reveal_strlit("\n");
    let h = " "@ + path + " | "@;
    let t = digits + sp + bar + "\n"@;
    let c = " "@ + path + " | "@ + digits + sp + bar + "\n"@;
    assert(c =~= h + t);
    lemma_halves(s, p, h, t);
    assert(h.len() == 4 + path.len());
    lemma_stat_head(s, p, path);
    lemma_stat_tail(s, p + h.len(), digits, sp, bar);
}

/// One statistics line as `git` writes it: the path, the spaces that pad it
/// to a column, the count's digits, the spaces after the count and the
/// `+`/`-` bar.
pub struct StatLine {
    pub path: Seq<char>,
    pub pad: Seq<char>,
    pub count: Seq<char>,
    pub spaces: Seq<char>,
    pub bar: Seq<char>,
}

/// The text of one statistics line: ` <path><pad> | <count><spaces><bar>\n`.
pub open spec fn stat_line_text(l: StatLine) -> Seq<char> {
    " "@ + l.path + l.pad + " | "@ + l.count + l.spaces + l.bar + "\n"@
}

/// Statistics lines one after the other.
pub open spec fn stat_lines_text(ls: Seq<StatLine>) -> Seq<char>
    decreases ls.len(),
{
    if ls.len() == 0 {
        Seq::empty()
    } else {
        stat_line_text(ls[0]) + stat_lines_text(ls.drop_first())
    }
}

/// Only spaces.
pub open spec fn all_spaces(x: Seq<char>) -> bool {
    forall|i: int| 0 <= i < x.len() ==> #[trigger] x[i] == ' '
}

/// A statistics line whose parts are well formed, whose count fits in a
/// `usize`, and whose path holds no ` file` (so it cannot be taken for the
/// summary line).
pub open spec fn plain_stat_line(l: StatLine) -> bool {
    &&& stat_path(l.path)
    &&& !contains_seq(l.path, " file"@)
    &&& all_spaces(l.pad)
    &&& is_digit_run(l.count)
    &&& decimal_value(l.count) <= usize::MAX
    &&& all_of(l.spaces, CharClass::Space)
    &&& all_of(l.bar, CharClass::PlusMinus)
}

/// The file statistic that a line gives: its path, without the padding, and its count.
pub open spec fn stat_of(l: StatLine) -> FileStatView {
    FileStatView { path: l.path, changed_lines: decimal_value(l.count) as usize }
}

proof fn lemma_trim_pad(path: Seq<char>, pad: Seq<char>)
    requires
        path.len() > 0,
        path.last() != ' ',
        all_spaces(pad),
    ensures
        crate::text::trim_spaces_end(path + pad) == path,
    decreases pad.len(),
{
    if pad.len() == 0 {
        assert(path + pad =~= path);
    } else {
        assert((path + pad).drop_last() =~= path + pad.drop_last());
        assert(pad[pad.len() - 1] == ' ');
        lemma_trim_pad(path, pad.drop_last());
    }
}

/// The head of a padded statistics line: one space, the path (read without
/// its padding) and ` | `.
pub(crate) proof fn lemma_stat_line_head(s: Seq<char>, p: int, l: StatLine)
    requires
        0 <= p,
        plain_stat_line(l),
        p + stat_line_text(l).len() <= s.len(),
        s.subrange(p, p + stat_line_text(l).len()) == stat_line_text(l),
    ensures
        take_while1(s, p, CharClass::Space) == Step::Done(p + 1, seq![' ']),
        take_until_trimmed(s, p + 1, " | "@) == Step::Done(
            p + 1 + l.path.len() + l.pad.len(),
            l.path,
        ),
        tag(s, p + 1 + l.path.len() + l.pad.len(), " | "@) == Step::Done(
            p + 4 + l.path.len() + l.pad.len(),
            (),
        ),
        s.subrange(
            p + 4 + l.path.len() + l.pad.len(),
            p + stat_line_text(l).len(),
        ) == l.count + l.spaces + l.bar + "\n"@,
{
    reveal_strlit(" ");
    reveal_strlit(" | ");
    reveal_strlit("\n");
    let path = l.path;
    let w = path + l.pad;
    let h = " "@ + w + " | "@;
    let t = l.count + l.spaces + l.bar + "\n"@;
    assert(stat_line_text(l) =~= h + t);
    lemma_halves(s, p, h, t);
    let p1 = p + 1;
    let p2 = p1 + w.len();
    let sh = s.subrange(p, p + h.len());
    assert(h.len() == w.len() + 4);
    assert(s[p] == ' ') by {
        assert(sh[0] == s[p]);
    }
    assert(s[p1] == path[0]) by {
        assert(sh[1] == s[p1]);
        assert(h[1] == w[0]);
    }
    lemma_run_end_exact(s, p, p1, CharClass::Space);
    assert(s.subrange(p, p1) =~= seq![' ']);
    assert(s.subrange(p2, p2 + 3) == " | "@) by {
        assert(s.subrange(p2, p2 + 3) =~= sh.subrange(p2 - p, p2 - p + 3));
        assert(h.subrange(p2 - p, p2 - p + 3) =~= " | "@);
    }
    assert(s.subrange(p1, p2) == w) by {
        assert(s.subrange(p1, p2) =~= sh.subrange(1, p2 - p));
        assert(h.subrange(1, p2 - p) =~= w);
    }
    assert forall|j: int| p1 <= j < p2 implies !#[trigger] occurs_at(s, j, " | "@) by {
        if occurs_at(s, j, " | "@) {
            assert(s.subrange(j, j + 3)[1] == s[j + 1]);
            if j + 1 < p2 {
                assert(s.subrange(p1, p2)[j + 1 - p1] == s[j + 1]);
                if j + 1 - p1 < path.len() {
                    assert(w[j + 1 - p1] == path[j + 1 - p1]);
                } else {
                    assert(w[j + 1 - p1] == l.pad[j + 1 - p1 - path.len()]);
                }
            } else {
                assert(s.subrange(p2, p2 + 3)[0] == s[j + 1]);
            }
        }
    }
    lemma_first_at_exact(s, " | "@, p1, p2);
    lemma_trim_pad(path, l.pad);
}

/// A padded statistics line reads as its path and count.
proof fn lemma_stat_line_reads(s: Seq<char>, p: int, l: StatLine)
    requires
        0 <= p,
        plain_stat_line(l),
        p + stat_line_text(l).len() <= s.len(),
        s.subrange(p, p + stat_line_text(l).len()) == stat_line_text(l),
    ensures
        file_stats_at(s, p) == Step::Done(p + stat_line_text(l).len(), stat_of(l)),
{
    reveal_strlit(" ");
    reveal_strlit(" | ");
    reveal_strlit("\n");
    lemma_stat_line_head(s, p, l);
    let p3 = p + 4 + l.path.len() + l.pad.len();
    assert(stat_line_text(l).len() == 4 + l.path.len() + l.pad.len() + l.count.len()
        + l.spaces.len() + l.bar.len() + 1);
    lemma_stat_tail(s, p3, l.count, l.spaces, l.bar);
}

pub(crate) proof fn lemma_prefix_occurs(s: Seq<char>, e: int, t: Seq<char>, u: Seq<char>)
    requires
        occurs_at(s, e, t),
        u.len() <= t.len(),
        t.subrange(0, u.len() as int) == u,
    ensures
        occurs_at(s, e, u),
{
    assert(s.subrange(e, e + u.len()) =~= t.subrange(0, u.len() as int));
}

proof fn lemma_no_file_word(s: Seq<char>, a: int, m: int, e: int, path: Seq<char>)
    requires
        0 <= a <= e <= m,
        m + 2 <= s.len(),
        s.subrange(a, m) == path,
        s[m] == ' ',
        s[m + 1] == ' ' || s[m + 1] == '|',
        !contains_seq(path, " file"@),
    ensures
        !occurs_at(s, e, " file"@),
{
    reveal_strlit(" file");
    if occurs_at(s, e, " file"@) {
        let w = " file"@;
        assert(s.subrange(e, e + 5) == w);
        if e + 5 <= m {
            assert(path.subrange(e - a, e - a + 5) =~= s.subrange(e, e + 5));
            assert(occurs_at(path, e - a, w));
        } else if e == m {
            assert(s.subrange(e, e + 5)[1] == s[m + 1]);
        } else {
            assert(s.subrange(e, e + 5)[m - e] == s[m]);
        }
    }
}

proof fn lemma_summary_stops(s: Seq<char>, p: int, e: int)
    requires
        take_while1(s, p, CharClass::Space) == Step::Done(p + 1, seq![' ']),
        run_end(s, p + 1, CharClass::Digit) == e,
        !occurs_at(s, e, " files changed"@),
        !occurs_at(s, e, " file changed"@),
    ensures
        summary_at(s, p) is Error,
{
}

pub(crate) proof fn lemma_stat_line_not_summary(s: Seq<char>, p: int, l: StatLine) -> (e: int)
    requires
        0 <= p,
        plain_stat_line(l),
        p + stat_line_text(l).len() <= s.len(),
        s.subrange(p, p + stat_line_text(l).len()) == stat_line_text(l),
    ensures
        take_while1(s, p, CharClass::Space) == Step::Done(p + 1, seq![' ']),
        run_end(s, p + 1, CharClass::Digit) == e,
        !occurs_at(s, e, " files changed"@),
        !occurs_at(s, e, " file changed"@),
{
    reveal_strlit(" ");
    reveal_strlit(" | ");
    reveal_strlit(" file");
    reveal_strlit(" files changed");
    reveal_strlit(" file changed");
    let path = l.path;
    let pad = l.pad;
    let m = p + 1 + path.len();
    let h = " "@ + path + pad + " | "@;
    let rest = l.count + l.spaces + l.bar + "\n"@;
    assert(stat_line_text(l) =~= h + rest);
    lemma_halves(s, p, h, rest);
    assert(h.len() == path.len() + pad.len() + 4);
    let sh = s.subrange(p, p + h.len());
    assert(sh == h);
    assert(s[p] == ' ') by {
        assert(sh[0] == s[p]);
    }
    assert(s[p + 1] == path[0]) by {
        assert(sh[1] == s[p + 1]);
    }
    assert(h[m - p] == ' ') by {
        if pad.len() > 0 {
            assert(h[m - p] == pad[0]);
        }
    }
    assert(h[m + 1 - p] == ' ' || h[m + 1 - p] == '|') by {
        if pad.len() > 1 {
            assert(h[m + 1 - p] == pad[1]);
        }
    }
    assert(s[m] == ' ') by {
        assert(sh[m - p] == s[m]);
    }
    assert(s[m + 1] == ' ' || s[m + 1] == '|') by {
        assert(sh[m + 1 - p] == s[m + 1]);
    }
    lemma_run_end_exact(s, p, p + 1, CharClass::Space);
    assert(s.subrange(p, p + 1) =~= seq![' ']);
    let e = run_end(s, p + 1, CharClass::Digit);
    lemma_run_end_bounds(s, p + 1, CharClass::Digit);
    assert(e <= m) by {
        if e > m {
            assert(in_class(CharClass::Digit, s[m]));
        }
    }
    assert(s.subrange(p + 1, m) == path) by {
        assert(s.subrange(p + 1, m) =~= sh.subrange(1, m - p));
        assert(h.subrange(1, m - p) =~= path);
    }
    lemma_no_file_word(s, p + 1, m, e, path);
    assert(!occurs_at(s, e, " files changed"@)) by {
        if occurs_at(s, e, " files changed"@) {
            assert(" files changed"@.subrange(0, 5) =~= " file"@);
            lemma_prefix_occurs(s, e, " files changed"@, " file"@);
        }
    }
    assert(!occurs_at(s, e, " file changed"@)) by {
        if occurs_at(s, e, " file changed"@) {
            assert(" file changed"@.subrange(0, 5) =~= " file"@);
            lemma_prefix_occurs(s, e, " file changed"@, " file"@);
        }
    }
    e
}

/// Statistics lines, one after the other, followed by a summary line, are
/// read whole: each line gives its path and count, in order, and the
/// summary's numbers come with them.
pub proof fn law_stat_lines_read(
    s: Seq<char>,
    p: int,
    ls: Seq<StatLine>,
    q: int,
    sum: (usize, usize, usize),
)
    requires
        0 <= p,
        forall|i: int| 0 <= i < ls.len() ==> plain_stat_line(#[trigger] ls[i]),
        p + stat_lines_text(ls).len() <= s.len(),
        s.subrange(p, p + stat_lines_text(ls).len()) == stat_lines_text(ls),
        summary_at(s, p + stat_lines_text(ls).len()) == Step::Done(q, sum),
    ensures
        stats_at(s, p) == Step::Done(q, (ls.map_values(|l: StatLine| stat_of(l)), sum)),
    decreases ls.len(),
{
    if ls.len() == 0 {
        assert(ls.map_values(|l: StatLine| stat_of(l)) =~= Seq::<FileStatView>::empty());
    } else {
        let l = ls[0];
        let rest = ls.drop_first();
        let t0 = stat_line_text(l);
        lemma_halves(s, p, t0, stat_lines_text(rest));
        let e = lemma_stat_line_not_summary(s, p, l);
        lemma_summary_stops(s, p, e);
        lemma_stat_line_reads(s, p, l);
        assert(t0.len() > 0);
        assert forall|i: int| 0 <= i < rest.len() implies plain_stat_line(#[trigger] rest[i]) by {
            assert(rest[i] == ls[i + 1]);
        }
        assert(stat_lines_text(ls).len() == t0.len() + stat_lines_text(rest).len());
        law_stat_lines_read(s, p + t0.len(), rest, q, sum);
        assert(seq![stat_of(l)] + rest.map_values(|l: StatLine| stat_of(l)) =~= ls.map_values(
            |l: StatLine| stat_of(l),
        ));
    }
}

/// [`parse_commit_hash`] reads `h` and stops at `q` exactly when the text from
/// `p` to `q` is `From ` + `h` + `x` + `\n` with `h` a non-empty run of
/// hexadecimal digits and `x` a line rest that does not go on with one; any
/// other text is an error, never a failure.
pub proof fn law_commit_hash_line(s: Seq<char>, p: int, q: int, h: Seq<char>)
    requires
        0 <= p <= q <= s.len(),
    ensures
        !(commit_hash_at(s, p) is Failure),
        commit_hash_at(s, p) == Step::Done(q, h) <==> (is_hex_run(h) && exists|x: Seq<char>|
            #![trigger after_hash(x)]
            after_hash(x) && s.subrange(p, q) == "From "@ + h + x + "\n"@),
{
    reveal_strlit("From ");
    reveal_strlit("\n");
    let nl = "\n"@;
    assert(nl =~= seq!['\n']);
    if commit_hash_at(s, p) == Step::Done(q, h) {
        let p1 = p + 5;
        let p2 = run_end(s, p1, CharClass::Hex);
        lemma_run_end_bounds(s, p1, CharClass::Hex);
        lemma_first_at_bounds(s, nl, p2);
        lemma_take_until_excludes(s, p2, '\n');
        let p3 = first_at(s, nl, p2).unwrap();
        let x = s.subrange(p2, p3);
        lemma_occurs_one(s, p3, '\n');
        assert(after_hash(x)) by {
            if x.len() > 0 {
                assert(x[0] == s[p2]);
            }
        }
        assert(s.subrange(p, q) =~= "From "@ + h + x + "\n"@);
    }
    if is_hex_run(h) && exists|x: Seq<char>|
        #![trigger after_hash(x)]
        after_hash(x) && s.subrange(p, q) == "From "@ + h + x + "\n"@ {
        let x = choose|x: Seq<char>|
            #![trigger after_hash(x)]
            after_hash(x) && s.subrange(p, q) == "From "@ + h + x + "\n"@;
        let c = "From "@ + h + x + "\n"@;
        let p1 = p + 5;
        let p2 = p1 + h.len();
        let p3 = p2 + x.len();
        assert("From "@.len() == 5);
        assert(c.len() == s.subrange(p, q).len());
        assert(q == p3 + 1);
        assert forall|i: int| 0 <= i < c.len() implies s[p + i] == #[trigger] c[i] by {
            assert(s.subrange(p, q)[i] == s[p + i]);
        }
        assert(s.subrange(p, p1) =~= "From "@) by {
            assert forall|i: int| 0 <= i < 5 implies s.subrange(p, p1)[i] == "From "@[i] by {
                assert(c[i] == "From "@[i]);
            }
        }
        assert forall|i: int| p1 <= i < p2 implies is_hex_char(#[trigger] s[i]) by {
            assert(c[i - p] == h[i - p1]);
        }
        assert(!is_hex_char(s[p2])) by {
            if x.len() > 0 {
                assert(c[p2 - p] == x[0]);
            } else {
                assert(c[p2 - p] == '\n');
            }
        }
        lemma_run_end_exact(s, p1, p2, CharClass::Hex);
        assert(s.subrange(p1, p2) =~= h) by {
            assert forall|i: int| 0 <= i < h.len() implies s.subrange(p1, p2)[i] == h[i] by {
                assert(c[5 + i] == h[i]);
            }
        }
        assert forall|i: int| p2 <= i < p3 implies !#[trigger] occurs_at(s, i, nl) by {
            lemma_occurs_one(s, i, '\n');
            assert(c[i - p] == x[i - p2]);
        }
        assert(s[p3] == '\n') by {
            assert(c[p3 - p] == '\n');
        }
        lemma_occurs_one(s, p3, '\n');
        lemma_first_at_exact(s, nl, p2, p3);
    }
}

/// A non-empty run of spaces and tabs.
pub open spec fn is_space_run(x: Seq<char>) -> bool {
    x.len() > 0 && forall|i: int| 0 <= i < x.len() ==> in_class(CharClass::Space, #[trigger] x[i])
}

/// What [`parse_diff`] reads is `diff --git a/<old><spaces>b/<new>\n<content>`,
/// with single-word paths, and it stops at the end of the text or right before
/// `\ndiff --git ` or `\n--\n`; a text that does not start with
/// `diff --git a/` is an error.
pub proof fn law_diff_decomposition(s: Seq<char>, p: int)
    ensures
        diff_at(s, p) matches Step::Done(q, d) ==> {
            &&& exists|sp: Seq<char>|
                #![trigger is_space_run(sp)]
                is_space_run(sp) && s.subrange(p, q) == "diff --git a/"@ + d.old_path + sp + "b/"@
                    + d.new_path + "\n"@ + d.content
            &&& single_word_paths(d)
            &&& q == s.len() || occurs_at(s, q, "\ndiff --git "@) || occurs_at(s, q, "\n--\n"@)
        },
        !occurs_at(s, p, "diff --git a/"@) ==> diff_at(s, p) is Error,
{
    reveal(diff_at);
    lemma_diff_paths(s, p);
    reveal_strlit("diff --git a/");
    reveal_strlit("diff --git ");
    reveal_strlit("a/");
    reveal_strlit("b/");
    reveal_strlit("\n");
    reveal_strlit(" ");
    if let Step::Done(p1, u) = tag(s, p, "diff --git "@) {
        if let Step::Done(p2, v) = tag(s, p1, "a/"@) {
            assert(s.subrange(p, p2) =~= s.subrange(p, p1) + s.subrange(p1, p2));
            assert("diff --git "@ + "a/"@ =~= "diff --git a/"@);
            assert(occurs_at(s, p, "diff --git a/"@));
            if let Step::Done(p3, old) = take_until(s, p2, " "@) {
                if let Step::Done(p4, w) = take_while1(s, p3, CharClass::Space) {
                    lemma_run_end_bounds(s, p3, CharClass::Space);
                    if let Step::Done(p5, x) = tag(s, p4, "b/"@) {
                        if let Step::Done(p6, new) = take_until(s, p5, "\n"@) {
                            if let Step::Done(p7, y) = newline(s, p6) {
                                let q = diff_body_end(s, p7);
                                lemma_body_has_no_header(s, p7);
                                lemma_first_at_bounds(s, "\ndiff --git "@, p7);
                                lemma_first_at_bounds(s, "\n--\n"@, p7);
                                let d = diff_at(s, p)->1;
                                assert(s.subrange(p, q) =~= "diff --git a/"@ + d.old_path + w
                                    + "b/"@ + d.new_path + "\n"@ + d.content);
                                assert(is_space_run(w));
                            }
                        }
                    }
                }
            }
        }
    }
}

/// Where the content of a diff ends, seen on the text `t` that starts with the
/// content and runs to the end: before the first `\ndiff --git ` of `t`, else
/// before its first `\n--\n`, else the content is all of `t` and nothing is left.
pub proof fn law_diff_content_end(s: Seq<char>, p: int)
    ensures
        diff_at(s, p) matches Step::Done(q, d) ==> ({
            let t = d.content + s.skip(q);
            match first_at(t, "\ndiff --git "@, 0) {
                Some(i) => d.content == t.take(i),
                None => match first_at(t, "\n--\n"@, 0) {
                    Some(i) => d.content == t.take(i),
                    None => d.content == t && q == s.len(),
                },
            }
        }),
{
    lemma_diff_shape(s, p);
    if let Step::Done(q, d) = diff_at(s, p) {
        let b = choose|b: int|
            #![trigger diff_body_end(s, b)]
            0 <= p < b <= s.len() && q == diff_body_end(s, b) && d.content == s.subrange(
                b,
                diff_body_end(s, b),
            );
        lemma_body_has_no_header(s, b);
        let t = d.content + s.skip(q);
        assert(t =~= s.skip(b));
        lemma_first_at_shift(s, b, 0, "\ndiff --git "@);
        lemma_first_at_shift(s, b, 0, "\n--\n"@);
        lemma_first_at_bounds(t, "\ndiff --git "@, 0);
        lemma_first_at_bounds(t, "\n--\n"@, 0);
        match first_at(t, "\ndiff --git "@, 0) {
            Some(i) => {
                assert(d.content =~= t.take(i));
            },
            None => match first_at(t, "\n--\n"@, 0) {
                Some(i) => {
                    assert(d.content =~= t.take(i));
                },
                None => {
                    assert(d.content =~= t);
                },
            },
        }
    }
}

/// The head of a mail up to and including its `---` line, as the fields of
/// `m` and the rest `x` of the `From ` line give it.
pub open spec fn mail_head(m: PatchMetadataView, x: Seq<char>) -> Seq<char> {
    "From "@ + m.commit_hash + x + "\nFrom: "@ + m.author + " <"@ + m.email + ">\nDate: "@ + m.date
        + "\nSubject: "@ + m.subject + "---\n"@
}

/// The fields of a mail head hold nothing that would have ended them earlier.
pub open spec fn head_fields_ok(m: PatchMetadataView) -> bool {
    &&& is_hex_run(m.commit_hash)
    &&& !contains_seq(m.author, " <"@)
    &&& forall|i: int| 0 <= i < m.email.len() ==> #[trigger] m.email[i] != '>'
    &&& forall|i: int| 0 <= i < m.date.len() ==> #[trigger] m.date[i] != '\n'
    &&& !contains_seq(m.subject, "---"@)
}

proof fn lemma_author_line(s: Seq<char>, p: int)
    ensures
        author_at(s, p) matches Step::Done(q, who) ==> s.subrange(p, q) == "From: "@ + who.0 + " <"@
            + who.1 + ">\n"@ && !contains_seq(who.0, " <"@) && (forall|i: int|
            0 <= i < who.1.len() ==> #[trigger] who.1[i] != '>'),
{
    reveal_strlit(" <");
    reveal_strlit(">");
    assert(">"@ =~= seq!['>']);
    if let Step::Done(a1, u) = tag(s, p, "From: "@) {
        lemma_take_until_clean(s, a1, " <"@);
        if let Step::Done(a2, name) = take_until(s, a1, " <"@) {
            if let Step::Done(a3, v) = tag(s, a2, " <"@) {
                lemma_take_until_excludes(s, a3, '>');
                if let Step::Done(a4, email) = take_until(s, a3, ">"@) {
                    if let Step::Done(a5, w) = tag(s, a4, ">\n"@) {
                        assert(s.subrange(p, a5) =~= "From: "@ + name + " <"@ + email + ">\n"@);
                    }
                }
            }
        }
    }
}

pub proof fn lemma_date_line(s: Seq<char>, p: int)
    ensures
        date_at(s, p) matches Step::Done(q, date) ==> s.subrange(p, q) == "Date: "@ + date + "\n"@
            && (forall|i: int| 0 <= i < date.len() ==> #[trigger] date[i] != '\n'),
{
    reveal_strlit("\n");
    assert("\n"@ =~= seq!['\n']);
    if let Step::Done(d1, u) = tag(s, p, "Date: "@) {
        lemma_take_until_excludes(s, d1, '\n');
        if let Step::Done(d2, date) = take_until(s, d1, "\n"@) {
            if let Step::Done(d3, v) = newline(s, d2) {
                assert(s.subrange(p, d3) =~= "Date: "@ + date + "\n"@);
            }
        }
    }
}

proof fn lemma_subject_line(s: Seq<char>, p: int)
    ensures
        subject_at(s, p) matches Step::Done(q, subject) ==> s.subrange(p, q) == "Subject: "@
            + subject && !contains_seq(subject, "---"@),
{
    reveal_strlit("---");
    if let Step::Done(e1, u) = tag(s, p, "Subject: "@) {
        lemma_take_until_clean(s, e1, "---"@);
        if let Step::Done(e2, subject) = take_until(s, e1, "---"@) {
            assert(s.subrange(p, e2) =~= "Subject: "@ + subject);
        }
    }
}

/// A mail that [`parse_patch`] reads starts with its head: `From <hash>...`,
/// `From: <author> <<email>>`, `Date: <date>`, `Subject: <subject>` and `---`,
/// each field holding nothing that would have ended it earlier.
#[verifier::rlimit(100)]
pub proof fn law_mail_head(s: Seq<char>)
    ensures
        patch_at(s, 0) matches Step::Done(q, v) ==> (v.metadata matches Some(m) && head_fields_ok(m)
            && exists|x: Seq<char>|
            #![trigger after_hash(x)]
            after_hash(x) && mail_head(m, x).len() <= s.len() && s.subrange(
                0,
                mail_head(m, x).len() as int,
            ) == mail_head(m, x)),
{
    if let Step::Done(p1, hash) = commit_hash_at(s, 0) {
        lemma_commit_hash_within(s);
        law_commit_hash_line(s, 0, p1, hash);
        lemma_author_line(s, p1);
        if let Step::Done(p2, who) = author_at(s, p1) {
            lemma_date_line(s, p2);
            if let Step::Done(p3, date) = date_at(s, p2) {
                lemma_subject_line(s, p3);
                if let Step::Done(p4, subject) = subject_at(s, p3) {
                    if let Step::Done(p5, u) = tag(s, p4, "---\n"@) {
                        if let Step::Done(q, v) = patch_at(s, 0) {
                            let m = v.metadata.unwrap();
                            let x = choose|x: Seq<char>|
                                #![trigger after_hash(x)]
                                after_hash(x) && s.subrange(0, p1) == "From "@ + hash + x + "\n"@;
                            assert(s.subrange(0, p5) =~= s.subrange(0, p1) + s.subrange(p1, p2)
                                + s.subrange(p2, p3) + s.subrange(p3, p4) + s.subrange(p4, p5));
                            reveal_strlit("\n");
                            reveal_strlit("From: ");
                            reveal_strlit("\nFrom: ");
                            reveal_strlit(">\n");
                            reveal_strlit("Date: ");
                            reveal_strlit(">\nDate: ");
                            reveal_strlit("Subject: ");
                            reveal_strlit("\nSubject: ");
                            assert("\n"@ + "From: "@ =~= "\nFrom: "@);
                            assert(">\n"@ + "Date: "@ =~= ">\nDate: "@);
                            assert("\n"@ + "Subject: "@ =~= "\nSubject: "@);
                            assert(mail_head(m, x) =~= s.subrange(0, p5));
                        }
                    }
                }
            }
        }
    }
}

/// A pattern that stands wholly inside a known piece of the text stands in the piece.
pub(crate) proof fn lemma_occurs_in_piece(s: Seq<char>, p: int, u: Seq<char>, t: Seq<char>, i: int)
    requires
        0 <= p <= i,
        i + t.len() <= p + u.len() <= s.len(),
        s.subrange(p, p + u.len()) == u,
        occurs_at(s, i, t),
    ensures
        occurs_at(u, i - p, t),
{
    assert(u.subrange(i - p, i - p + t.len()) =~= s.subrange(i, i + t.len()));
}

/// Text followed by a pattern that does not start earlier is read up to the pattern.
pub(crate) proof fn lemma_take_until_reads(s: Seq<char>, p: int, v: Seq<char>, t: Seq<char>)
    requires
        0 <= p,
        p + v.len() + t.len() <= s.len(),
        s.subrange(p, p + v.len() + t.len()) == v + t,
        forall|i: int| p <= i < p + v.len() ==> !#[trigger] occurs_at(s, i, t),
    ensures
        take_until(s, p, t) == Step::Done(p + v.len(), v),
        tag(s, p + v.len(), t) == Step::Done(p + v.len() + t.len(), ()),
{
    lemma_halves(s, p, v, t);
    lemma_first_at_exact(s, t, p, p + v.len());
}

pub(crate) proof fn lemma_author_reads(s: Seq<char>, p: int, a: Seq<char>, e: Seq<char>)
    requires
        0 <= p,
        !contains_seq(a, " <"@),
        forall|i: int| 0 <= i < e.len() ==> #[trigger] e[i] != '>',
        p + ("From: "@ + a + " <"@ + e + ">\n"@).len() <= s.len(),
        s.subrange(p, p + ("From: "@ + a + " <"@ + e + ">\n"@).len()) == "From: "@ + a + " <"@ + e
            + ">\n"@,
    ensures
        author_at(s, p) == Step::Done(p + ("From: "@ + a + " <"@ + e + ">\n"@).len(), (a, e)),
{
    reveal_strlit("From: ");
    reveal_strlit(" <");
    reveal_strlit(">\n");
    reveal_strlit(">");
    reveal_strlit("\n");
    let c = "From: "@ + a + " <"@ + e + ">\n"@;
    let p1 = p + 6;
    let p2 = p1 + a.len();
    let p3 = p2 + 2;
    let p4 = p3 + e.len();
    assert(c =~= "From: "@ + (a + " <"@ + (e + ">\n"@)));
    lemma_halves(s, p, "From: "@, a + " <"@ + (e + ">\n"@));
    assert(a + " <"@ + (e + ">\n"@) =~= (a + " <"@) + (e + ">\n"@));
    lemma_halves(s, p1, a + " <"@, e + ">\n"@);
    assert forall|i: int| p1 <= i < p2 implies !#[trigger] occurs_at(s, i, " <"@) by {
        if occurs_at(s, i, " <"@) {
            if i + 2 <= p2 {
                lemma_occurs_in_piece(s, p1, a + " <"@, " <"@, i);
                lemma_occurs_in_piece(s, p1, a + " <"@, " <"@, i);
                assert((a + " <"@).subrange(i - p1, i - p1 + 2) =~= a.subrange(i - p1, i - p1 + 2));
                assert(occurs_at(a, i - p1, " <"@));
            } else {
                assert(s.subrange(i, i + 2)[1] == s[p2]);
                assert(s.subrange(p1, p2 + 2)[p2 - p1] == s[p2]);
                assert((a + " <"@)[a.len() as int] == ' ');
            }
        }
    }
    lemma_take_until_reads(s, p1, a, " <"@);
    assert(">\n"@ =~= ">"@ + "\n"@);
    assert(e + ">\n"@ =~= e + ">"@ + "\n"@);
    lemma_halves(s, p3, e + ">"@, "\n"@);
    assert forall|i: int| p3 <= i < p4 implies !#[trigger] occurs_at(s, i, ">"@) by {
        if occurs_at(s, i, ">"@) {
            lemma_occurs_in_piece(s, p3, e + ">"@, ">"@, i);
            assert((e + ">"@).subrange(i - p3, i - p3 + 1)[0] == e[i - p3]);
        }
    }
    lemma_take_until_reads(s, p3, e, ">"@);
    lemma_halves(s, p3, e, ">\n"@);
}

pub(crate) proof fn lemma_date_reads(s: Seq<char>, p: int, d: Seq<char>)
    requires
        0 <= p,
        forall|i: int| 0 <= i < d.len() ==> #[trigger] d[i] != '\n',
        p + ("Date: "@ + d + "\n"@).len() <= s.len(),
        s.subrange(p, p + ("Date: "@ + d + "\n"@).len()) == "Date: "@ + d + "\n"@,
    ensures
        date_at(s, p) == Step::Done(p + ("Date: "@ + d + "\n"@).len(), d),
{
    reveal_strlit("Date: ");
    reveal_strlit("\n");
    let p1 = p + 6;
    assert("Date: "@ + d + "\n"@ =~= "Date: "@ + (d + "\n"@));
    lemma_halves(s, p, "Date: "@, d + "\n"@);
    assert forall|i: int| p1 <= i < p1 + d.len() implies !#[trigger] occurs_at(s, i, "\n"@) by {
        if occurs_at(s, i, "\n"@) {
            lemma_occurs_in_piece(s, p1, d + "\n"@, "\n"@, i);
            assert((d + "\n"@).subrange(i - p1, i - p1 + 1)[0] == d[i - p1]);
        }
    }
    lemma_take_until_reads(s, p1, d, "\n"@);
    assert("\n"@ =~= seq!['\n']);
    lemma_occurs_one(s, p1 + d.len(), '\n');
}

proof fn lemma_subject_reads(s: Seq<char>, p: int, t: Seq<char>)
    requires
        0 <= p,
        !contains_seq(t, "---"@),
        t.len() == 0 || t.last() != '-',
        p + ("Subject: "@ + t + "---\n"@).len() <= s.len(),
        s.subrange(p, p + ("Subject: "@ + t + "---\n"@).len()) == "Subject: "@ + t + "---\n"@,
    ensures
        subject_at(s, p) == Step::Done(p + 9 + t.len(), t),
        tag(s, p + 9 + t.len(), "---\n"@) == Step::Done(p + 13 + t.len(), ()),
{
    reveal_strlit("Subject: ");
    reveal_strlit("---");
    reveal_strlit("---\n");
    reveal_strlit("\n");
    let p1 = p + 9;
    let p2 = p1 + t.len();
    assert("Subject: "@ + t + "---\n"@ =~= "Subject: "@ + (t + "---\n"@));
    lemma_halves(s, p, "Subject: "@, t + "---\n"@);
    assert("---\n"@ =~= "---"@ + "\n"@);
    assert(t + "---\n"@ =~= t + "---"@ + "\n"@);
    lemma_halves(s, p1, t + "---"@, "\n"@);
    assert forall|i: int| p1 <= i < p2 implies !#[trigger] occurs_at(s, i, "---"@) by {
        if occurs_at(s, i, "---"@) {
            if i + 3 <= p2 {
                lemma_occurs_in_piece(s, p1, t + "---"@, "---"@, i);
                assert((t + "---"@).subrange(i - p1, i - p1 + 3) =~= t.subrange(i - p1, i - p1 + 3));
                assert(occurs_at(t, i - p1, "---"@));
            } else {
                assert(s.subrange(i, i + 3)[p2 - 1 - i] == s[p2 - 1]);
                assert(s.subrange(p1, p2 + 3)[p2 - 1 - p1] == s[p2 - 1]);
                assert((t + "---"@)[t.len() - 1] == t.last());
            }
        }
    }
    lemma_take_until_reads(s, p1, t, "---"@);
    lemma_halves(s, p1, t, "---\n"@);
}

/// A mail head `From <hash><x>\n`, `From: <author> <<email>>\n`,
/// `Date: <date>\n`, `Subject: <subject>` and `---\n`, whose fields hold
/// nothing that would end them earlier and whose subject does not end with
/// `-`, reads field by field as the hash, the author and email, the date and
/// the subject, each step stopping where its line ends.
#[verifier::rlimit(100)]
pub proof fn law_mail_head_reads(s: Seq<char>, m: PatchMetadataView, x: Seq<char>)
    requires
        head_fields_ok(m),
        after_hash(x),
        m.subject.len() == 0 || m.subject.last() != '-',
        mail_head(m, x).len() <= s.len(),
        s.subrange(0, mail_head(m, x).len() as int) == mail_head(m, x),
    ensures
        ({
            let p1: int = 6 + m.commit_hash.len() as int + x.len() as int;
            let p2: int = p1 + 10 + m.author.len() + m.email.len();
            let p3: int = p2 + 7 + m.date.len();
            let p4: int = p3 + 9 + m.subject.len();
            &&& commit_hash_at(s, 0) == Step::Done(p1, m.commit_hash)
            &&& author_at(s, p1) == Step::Done(p2, (m.author, m.email))
            &&& date_at(s, p2) == Step::Done(p3, m.date)
            &&& subject_at(s, p3) == Step::Done(p4, m.subject)
            &&& tag(s, p4, "---\n"@) == Step::Done(p4 + 4, ())
        }),
{
    reveal_strlit("From ");
    reveal_strlit("\n");
    reveal_strlit("From: ");
    reveal_strlit("\nFrom: ");
    reveal_strlit(" <");
    reveal_strlit(">\n");
    reveal_strlit("Date: ");
    reveal_strlit(">\nDate: ");
    reveal_strlit("Subject: ");
    reveal_strlit("\nSubject: ");
    reveal_strlit("---\n");
    let a = "From "@ + m.commit_hash + x + "\n"@;
    let b = "From: "@ + m.author + " <"@ + m.email + ">\n"@;
    let c = "Date: "@ + m.date + "\n"@;
    let d = "Subject: "@ + m.subject + "---\n"@;
    assert(mail_head(m, x) =~= a + (b + (c + d)));
    lemma_halves(s, 0, a, b + (c + d));
    let p1 = a.len() as int;
    lemma_halves(s, p1, b, c + d);
    let p2 = p1 + b.len();
    lemma_halves(s, p2, c, d);
    let p3 = p2 + c.len();
    law_commit_hash_line(s, 0, p1, m.commit_hash);
    assert(after_hash(x) && s.subrange(0, p1) == "From "@ + m.commit_hash + x + "\n"@);
    lemma_author_reads(s, p1, m.author, m.email);
    lemma_date_reads(s, p2, m.date);
    lemma_subject_reads(s, p3, m.subject);
}

pub proof fn lemma_commit_hash_within(s: Seq<char>)
    ensures
        within(commit_hash_at(s, 0), s, 0),
{
}

/// A line without `\r` or `\n`.
pub open spec fn one_line(l: Seq<char>) -> bool {
    forall|i: int| 0 <= i < l.len() ==> #[trigger] l[i] != '\r' && l[i] != '\n'
}

/// `t` is the block that follows the summary line: for each of `lines`, a
/// space, the line and a line ending (`\n` or `\r\n`); then one empty line.
pub open spec fn extra_block(t: Seq<char>, lines: Seq<Seq<char>>) -> bool
    decreases lines.len(),
{
    if lines.len() == 0 {
        t == seq!['\n']
    } else {
        let l = lines[0];
        let k: int = 1 + l.len() as int;
        let e: int = if k < t.len() && t[k] == '\r' {
            2
        } else {
            1
        };
        &&& one_line(l)
        &&& k + e <= t.len()
        &&& t[0] == ' '
        &&& t.subrange(1, k) == l
        &&& t[k + e - 1] == '\n'
        &&& extra_block(t.skip(k + e), lines.drop_first())
    }
}

proof fn lemma_extra_block(s: Seq<char>, a: int, r: int, q: int, lines: Seq<Seq<char>>)
    requires
        0 <= a <= s.len(),
        extra_lines_at(s, a) == Step::Done(r, lines),
        newline(s, r) == Step::Done(q, ()),
    ensures
        extra_block(s.subrange(a, q), lines),
    decreases s.len() - a,
{
    lemma_extra_line_advances(s, a);
    lemma_extra_lines_within(s, a);
    match extra_line_at(s, a) {
        Step::Done(a2, line) => {
            if a2 != a {
                let rest = extra_lines_at(s, a2)->1;
                lemma_extra_lines_within(s, a2);
                lemma_extra_block(s, a2, r, q, rest);
                assert(lines == seq![line] + rest);
                assert(lines.drop_first() =~= rest);
                let e = run_end(s, a + 1, CharClass::NotLineBreak);
                lemma_run_end_bounds(s, a + 1, CharClass::NotLineBreak);
                let t = s.subrange(a, q);
                assert(line == s.subrange(a + 1, e));
                assert(t.subrange(1, 1 + line.len() as int) =~= line);
                assert(one_line(line));
                assert(t.skip(a2 - a) =~= s.subrange(a2, q));
            }
        },
        _ => {
            assert(s.subrange(a, q) =~= seq!['\n']);
        },
    }
}

proof fn lemma_stats_summary(s: Seq<char>, p: int)
    ensures
        stats_at(s, p) matches Step::Done(r, st) ==> exists|b: int|
            #![trigger summary_at(s, b)]
            p <= b && summary_at(s, b) == Step::Done(r, st.1),
    decreases s.len() - p,
{
    lemma_file_stats_advances(s, p);
    if summary_at(s, p) is Error {
        if let Step::Done(q, fs) = file_stats_at(s, p) {
            if q != p {
                lemma_stats_summary(s, q);
            }
        }
    }
}

proof fn lemma_more_stats_block(s: Seq<char>, p: int)
    requires
        0 <= p <= s.len(),
    ensures
        more_stats_at(s, p) matches Step::Done(q, lines) ==> p <= q <= s.len() && extra_block(
            s.subrange(p, q),
            lines,
        ),
{
    match newline(s, p) {
        Step::Done(q, u2) => {
            assert(s.subrange(p, q) =~= seq!['\n']);
        },
        _ => {
            lemma_extra_lines_within(s, p);
            if let Step::Done(r, lines) = extra_lines_at(s, p) {
                if let Step::Done(q, u3) = newline(s, r) {
                    lemma_extra_block(s, p, r, q, lines);
                }
            }
        },
    }
}


proof fn lemma_extra_block_reads(s: Seq<char>, a: int, q: int, lines: Seq<Seq<char>>) -> (r: int)
    requires
        0 <= a <= q <= s.len(),
        extra_block(s.subrange(a, q), lines),
    ensures
        extra_lines_at(s, a) == Step::Done(r, lines),
        newline(s, r) == Step::Done(q, ()),
    decreases lines.len(),
{
    let t = s.subrange(a, q);
    if lines.len() == 0 {
        assert(t == seq!['\n']);
        assert(t.len() == 1);
        assert(q == a + 1);
        assert(t[0] == '\n');
        assert(s[a] == t[0]);
        assert(newline(s, a) == Step::Done(q, ()));
        assert(extra_line_at(s, a) is Error);
        assert(lines =~= Seq::<Seq<char>>::empty());
        a
    } else {
        let l = lines[0];
        let k: int = 1 + l.len() as int;
        let e: int = if k < t.len() && t[k] == '\r' {
            2
        } else {
            1
        };
        assert(s[a] == t[0]);
        assert forall|i: int| a + 1 <= i < a + k implies in_class(
            CharClass::NotLineBreak,
            #[trigger] s[i],
        ) by {
            assert(s[i] == t[i - a]);
            assert(t.subrange(1, k)[i - a - 1] == t[i - a]);
            assert(l[i - a - 1] != '\r' && l[i - a - 1] != '\n');
        }
        assert(s[a + k] == t[k]);
        assert(s[a + k + e - 1] == t[k + e - 1]);
        assert(t[k] == '\r' || t[k] == '\n');
        assert(!in_class(CharClass::NotLineBreak, s[a + k]));
        lemma_run_end_exact(s, a + 1, a + k, CharClass::NotLineBreak);
        assert(s.subrange(a + 1, a + k) =~= l);
        let a2 = a + k + e;
        assert(one_char(s, a, ' ') == Step::Done(a + 1, ()));
        if e == 2 {
            assert(s[a + k] == '\r' && s[a + k + 1] == '\n');
        }
        assert(not_line_ending(s, a + 1) == Step::Done(a + k, l));
        assert(line_ending(s, a + k) == Step::Done(a2, ()));
        assert(extra_line_at(s, a) == Step::Done(a2, l));
        assert(t.skip(k + e) =~= s.subrange(a2, q));
        let r = lemma_extra_block_reads(s, a2, q, lines.drop_first());
        assert(lines =~= seq![l] + lines.drop_first());
        assert(a2 != a);
        assert(extra_lines_at(s, a) == Step::Done(r, seq![l] + lines.drop_first()));
        r
    }
}

/// After the summary line, a block of any number of extra statistics lines
/// (each a space, the line and its ending) closed by an empty line is read
/// whole: the lines come back in order, and reading stops after the empty line.
pub proof fn law_extra_stat_lines_read(s: Seq<char>, p: int, q: int, lines: Seq<Seq<char>>)
    requires
        0 <= p <= q <= s.len(),
        extra_block(s.subrange(p, q), lines),
    ensures
        more_stats_at(s, p) == Step::Done(q, lines),
{
    let t = s.subrange(p, q);
    if lines.len() == 0 {
        assert(t == seq!['\n']);
        assert(t.len() == 1);
        assert(t[0] == '\n');
        assert(s[p] == t[0]);
        assert(newline(s, p) == Step::Done(p + 1, ()));
        assert(lines =~= Seq::<Seq<char>>::empty());
    } else {
        assert(t.len() > 0);
        assert(t[0] == ' ');
        assert(s[p] == t[0]);
        let r = lemma_extra_block_reads(s, p, q, lines);
    }
}

/// The summary line ` <n><changed>[, <i><label>][, <d><label>]\n`.
pub open spec fn summary_line_text(
    n: Seq<char>,
    changed: Seq<char>,
    ins: Option<(Seq<char>, Seq<char>)>,
    del: Option<(Seq<char>, Seq<char>)>,
) -> Seq<char> {
    " "@ + n + changed + count_part(ins) + count_part(del) + "\n"@
}

/// A mail written as its head (see [`mail_head`]), statistics lines, a
/// summary line and a block of extra statistics lines closed by an empty
/// line, each part well formed, is read as a patch whose metadata is exactly
/// what was written: the head's fields, the file statistics in order, the
/// extra lines in order and the summary's three numbers; reading stops after
/// the empty line, and the diffs are read from there on. [`parse_file`]
/// reads it the same way.
#[verifier::rlimit(100)]
pub proof fn law_mail_reads(
    s: Seq<char>,
    m: PatchMetadataView,
    x: Seq<char>,
    ls: Seq<StatLine>,
    n: Seq<char>,
    changed: Seq<char>,
    ins: Option<(Seq<char>, Seq<char>)>,
    del: Option<(Seq<char>, Seq<char>)>,
    blk: Seq<char>,
)
    requires
        head_fields_ok(m),
        after_hash(x),
        m.subject.len() == 0 || m.subject.last() != '-',
        forall|i: int| 0 <= i < ls.len() ==> plain_stat_line(#[trigger] ls[i]),
        changed == " files changed"@ || changed == " file changed"@,
        is_digit_run(n),
        valid_count_part(ins, true),
        valid_count_part(del, false),
        decimal_value(n) <= usize::MAX,
        count_part_value(ins) <= usize::MAX,
        count_part_value(del) <= usize::MAX,
        extra_block(blk, m.more_file_stats),
        m.file_stats == ls.map_values(|l: StatLine| stat_of(l)),
        m.files_changes == decimal_value(n),
        m.insertions == count_part_value(ins),
        m.deletions == count_part_value(del),
        (mail_head(m, x) + stat_lines_text(ls) + summary_line_text(n, changed, ins, del)
            + blk).len() <= s.len(),
        s.subrange(
            0,
            (mail_head(m, x) + stat_lines_text(ls) + summary_line_text(n, changed, ins, del)
                + blk).len() as int,
        ) == mail_head(m, x) + stat_lines_text(ls) + summary_line_text(n, changed, ins, del) + blk,
    ensures
        ({
            let q = (mail_head(m, x) + stat_lines_text(ls) + summary_line_text(n, changed, ins, del)
                + blk).len() as int;
            &&& patch_at(s, 0) == Step::Done(
                q,
                PatchFileView { metadata: Some(m), diffs: diffs_from(s, q) },
            )
            &&& file_at(s) == patch_at(s, 0)
        }),
{
    reveal_strlit("From ");
    reveal_strlit("From");
    let h = mail_head(m, x);
    let st = stat_lines_text(ls);
    let u = summary_line_text(n, changed, ins, del);
    let all = h + st + u + blk;
    assert(all =~= h + (st + (u + blk)));
    lemma_halves(s, 0, h, st + (u + blk));
    let p5 = h.len() as int;
    lemma_halves(s, p5, st, u + blk);
    let p6 = p5 + st.len();
    lemma_halves(s, p6, u, blk);
    let q6 = p6 + u.len();
    let q = q6 + blk.len();
    assert(s.subrange(0, h.len() as int) == h);
    law_mail_head_reads(s, m, x);
    reveal_strlit("\nFrom: ");
    reveal_strlit(" <");
    reveal_strlit(">\nDate: ");
    reveal_strlit("\nSubject: ");
    reveal_strlit("---\n");
    assert(h.len() == 6 + m.commit_hash.len() + x.len() + 10 + m.author.len() + m.email.len() + 7
        + m.date.len() + 9 + m.subject.len() + 4);
    law_summary_line(s, p6, n, changed, ins, del);
    law_stat_lines_read(s, p5, ls, q6, (
        decimal_value(n) as usize,
        count_part_value(ins) as usize,
        count_part_value(del) as usize,
    ));
    law_extra_stat_lines_read(s, q6, q, m.more_file_stats);
    assert(occurs_at(s, 0, "From"@)) by {
        assert(s.subrange(0, 4) =~= all.subrange(0, 4));
        assert(h.subrange(0, 4) =~= "From"@);
        assert(all.subrange(0, 4) =~= h.subrange(0, 4));
    }
}

/// After the summary line of a mail that [`parse_patch`] reads come the extra
/// statistics lines (each a space, the line and its ending; kept without the
/// space, in order) and one empty line; the rest of the text starts right
/// there, and the diffs are that rest read as a list of diffs.
#[verifier::rlimit(100)]
pub proof fn law_mail_after_summary(s: Seq<char>)
    ensures
        patch_at(s, 0) matches Step::Done(q, v) ==> (v.metadata matches Some(m) && v.diffs
            == diffs_from(s.skip(q), 0) && exists|b: int, a: int|
            #![trigger summary_at(s, b), s.subrange(a, q)]
            0 <= b < a <= q && summary_at(s, b) == Step::Done(
                a,
                (m.files_changes, m.insertions, m.deletions),
            ) && extra_block(s.subrange(a, q), m.more_file_stats)),
{
    law_mail_diffs_are_the_rest_read_as_diffs(s);
    if let Step::Done(p1, hash) = commit_hash_at(s, 0) {
        if let Step::Done(p2, who) = author_at(s, p1) {
            if let Step::Done(p3, date) = date_at(s, p2) {
                if let Step::Done(p4, subject) = subject_at(s, p3) {
                    if let Step::Done(p5, u) = tag(s, p4, "---\n"@) {
                        lemma_stats_summary(s, p5);
                        lemma_stats_within(s, p5);
                        if let Step::Done(p6, st) = stats_at(s, p5) {
                            let b = choose|b: int|
                                #![trigger summary_at(s, b)]
                                p5 <= b && summary_at(s, b) == Step::Done(p6, st.1);
                            lemma_more_stats_block(s, p6);
                        }
                    }
                }
            }
        }
    }
}

/// The text of one diff: `diff --git a/<old> b/<new>\n<content>`.
pub open spec fn diff_record(d: DiffView) -> Seq<char> {
    "diff --git a/"@ + d.old_path + " b/"@ + d.new_path + "\n"@ + d.content
}

/// The texts of the diffs, one after the other, separated by `\n`.
pub open spec fn joined_records(ds: Seq<DiffView>) -> Seq<char>
    decreases ds.len(),
{
    if ds.len() == 0 {
        seq![]
    } else if ds.len() == 1 {
        diff_record(ds[0])
    } else {
        diff_record(ds[0]) + "\n"@ + joined_records(ds.drop_first())
    }
}

/// Diffs that can be written one after the other and read back: single-word
/// paths, no diff header in a content, and no `\n--\n` in the last content.
pub open spec fn writable_diffs(ds: Seq<DiffView>) -> bool {
    &&& forall|i: int|
        0 <= i < ds.len() ==> single_word_paths(#[trigger] ds[i]) && !contains_seq(
            ds[i].content,
            "\ndiff --git "@,
        )
    &&& ds.len() > 0 ==> !contains_seq(ds.last().content, "\n--\n"@)
}

proof fn lemma_occurs_inside(s: Seq<char>, b: int, c: Seq<char>, t: Seq<char>, j: int)
    requires
        0 <= b,
        b + c.len() <= s.len(),
        s.subrange(b, b + c.len()) == c,
        occurs_at(s, j, t),
        b <= j,
        j + t.len() <= b + c.len(),
    ensures
        contains_seq(c, t),
{
    assert(c.subrange(j - b, j - b + t.len()) =~= s.subrange(j, j + t.len()));
    assert(occurs_at(c, j - b, t));
}

/// One diff written before `tail` (nothing, or text that starts a new diff
/// header) reads back as itself, up to the end of its text.
#[verifier::rlimit(60)]
proof fn lemma_record_reads(d: DiffView, tail: Seq<char>)
    requires
        single_word_paths(d),
        !contains_seq(d.content, "\ndiff --git "@),
        (tail.len() == 0 && !contains_seq(d.content, "\n--\n"@)) || occurs_at(
            tail,
            0,
            "\ndiff --git "@,
        ),
    ensures
        diff_at(diff_record(d) + tail, 0) == Step::Done(diff_record(d).len() as int, d),
{
    reveal(diff_at);
    reveal_strlit("diff --git a/");
    reveal_strlit("diff --git ");
    reveal_strlit("a/");
    reveal_strlit(" b/");
    reveal_strlit("b/");
    reveal_strlit(" ");
    reveal_strlit("\n");
    reveal_strlit("\ndiff --git ");
    reveal_strlit("\n--\n");
    let pat = "\ndiff --git "@;
    let end = "\n--\n"@;
    let r = diff_record(d);
    let s = r + tail;
    let n = r.len() as int;
    let p3: int = 13 + d.old_path.len() as int;
    let p4: int = p3 + 1;
    let p5: int = p4 + 2;
    let p6: int = p5 + d.new_path.len() as int;
    let p7: int = p6 + 1;
    assert(n == p7 + d.content.len());
    assert(s.subrange(0, 11) =~= "diff --git "@);
    assert(s.subrange(11, 13) =~= "a/"@);
    assert(" "@ =~= seq![' ']);
    assert("\n"@ =~= seq!['\n']);
    assert forall|i: int| 13 <= i < p3 implies !#[trigger] occurs_at(s, i, " "@) by {
        lemma_occurs_one(s, i, ' ');
        assert(s[i] == d.old_path[i - 13]);
    }
    lemma_occurs_one(s, p3, ' ');
    lemma_first_at_exact(s, " "@, 13, p3);
    assert(s.subrange(13, p3) =~= d.old_path);
    assert(s[p4] == 'b');
    lemma_run_end_exact(s, p3, p4, CharClass::Space);
    assert(s.subrange(p3, p4) =~= seq![' ']);
    assert(s.subrange(p4, p5) =~= "b/"@);
    assert forall|i: int| p5 <= i < p6 implies !#[trigger] occurs_at(s, i, "\n"@) by {
        lemma_occurs_one(s, i, '\n');
        assert(s[i] == d.new_path[i - p5]);
    }
    lemma_occurs_one(s, p6, '\n');
    lemma_first_at_exact(s, "\n"@, p5, p6);
    assert(s.subrange(p5, p6) =~= d.new_path);
    assert(s.subrange(p7, n) =~= d.content);
    assert forall|j: int| p7 <= j && j + pat.len() <= n implies !#[trigger] occurs_at(s, j, pat) by {
        if occurs_at(s, j, pat) {
            lemma_occurs_inside(s, p7, d.content, pat, j);
        }
    }
    if tail.len() == 0 {
        assert(s =~= r);
        assert forall|j: int| p7 <= j implies !#[trigger] occurs_at(s, j, pat) by {
            if occurs_at(s, j, pat) {
                lemma_occurs_inside(s, p7, d.content, pat, j);
            }
        }
        assert forall|j: int| p7 <= j implies !#[trigger] occurs_at(s, j, end) by {
            if occurs_at(s, j, end) {
                lemma_occurs_inside(s, p7, d.content, end, j);
            }
        }
        lemma_first_at_none(s, pat, p7);
        lemma_first_at_none(s, end, p7);
    } else {
        assert(s.subrange(n, n + 12) =~= tail.subrange(0, 12));
        assert(occurs_at(s, n, pat));
        assert forall|j: int| p7 <= j < n implies !#[trigger] occurs_at(s, j, pat) by {
            if occurs_at(s, j, pat) {
                if j + 12 <= n {
                    lemma_occurs_inside(s, p7, d.content, pat, j);
                } else {
                    assert(s.subrange(j, j + 12)[n - j] == s[n]);
                    assert(s[n] == tail[0]);
                    assert(tail.subrange(0, 12)[0] == tail[0]);
                }
            }
        }
        lemma_first_at_exact(s, pat, p7, n);
    }
}

/// Diffs written one after the other, separated by `\n`, read back as the
/// same list through [`parse_many_diffs`].
pub proof fn law_diffs_round_trip(ds: Seq<DiffView>)
    requires
        ds.len() > 0,
        writable_diffs(ds),
    ensures
        diffs_from(joined_records(ds), 0) == ds,
    decreases ds.len(),
{
    reveal_strlit("\n");
    reveal_strlit("diff --git a/");
    reveal_strlit("\ndiff --git ");
    let d = ds[0];
    let s = joined_records(ds);
    let r = diff_record(d);
    lemma_diffs_from_unfold(s, 0);
    if ds.len() == 1 {
        assert(s =~= r + Seq::<char>::empty());
        lemma_record_reads(d, Seq::<char>::empty());
        assert(newline(s, r.len() as int) is Error);
        assert(ds =~= seq![d]);
    } else {
        let rest = ds.drop_first();
        let tail = "\n"@ + joined_records(rest);
        assert(s =~= r + tail);
        assert(writable_diffs(rest)) by {
            assert forall|i: int| 0 <= i < rest.len() implies single_word_paths(#[trigger] rest[i])
                && !contains_seq(rest[i].content, "\ndiff --git "@) by {
                assert(rest[i] == ds[i + 1]);
            }
            assert(rest.last() == ds.last());
        }
        let rr = diff_record(rest[0]);
        assert(joined_records(rest).subrange(0, 11) =~= rr.subrange(0, 11)) by {
            if rest.len() > 1 {
                assert(joined_records(rest) =~= rr + ("\n"@ + joined_records(rest.drop_first())));
            }
        }
        assert(tail.subrange(0, 12) =~= "\ndiff --git "@);
        lemma_record_reads(d, tail);
        let n = r.len() as int;
        assert(newline(s, n) == Step::Done(n + 1, ()));
        law_diffs_round_trip(rest);
        lemma_diffs_from_shift(s, n + 1, 0);
        assert(s.skip(n + 1) =~= joined_records(rest));
        assert(ds =~= seq![d] + rest);
    }
}

/// Parse commit
pub fn parse_commit_hash(chars: &Vec<char>, pos: usize) -> (r: Result<(usize, String), PatchError>)
    requires
        pos <= chars.len(),
    ensures
        agrees(r, commit_hash_at(chars@, pos as int)),
        r matches Ok((q, _)) ==> pos <= q <= chars.len(),
{
    let p1 = tag_at(chars, pos, "From ")?;
    let (p2, hash) = take_while1_at(chars, p1, CharClass::Hex)?;
    let (p3, _) = take_until_at(chars, p2, "\n")?;
    let p4 = newline_at(chars, p3)?;
    Ok((p4, hash))
}

/// Parse author
pub fn parse_author(chars: &Vec<char>, pos: usize) -> (r: Result<(usize, (String, String)), PatchError>)
    requires
        pos <= chars.len(),
    ensures
        agrees(r, author_at(chars@, pos as int)),
        r matches Ok((q, _)) ==> pos <= q <= chars.len(),
{
    let p1 = tag_at(chars, pos, "From: ")?;
    let (p2, name) = take_until_at(chars, p1, " <")?;
    let p3 = tag_at(chars, p2, " <")?;
    let (p4, email) = take_until_at(chars, p3, ">")?;
    let p5 = tag_at(chars, p4, ">\n")?;
    Ok((p5, (name, email)))
}

/// Parse date
pub fn parse_date(chars: &Vec<char>, pos: usize) -> (r: Result<(usize, String), PatchError>)
    requires
        pos <= chars.len(),
    ensures
        agrees(r, date_at(chars@, pos as int)),
        r matches Ok((q, _)) ==> pos <= q <= chars.len(),
{
    let p1 = tag_at(chars, pos, "Date: ")?;
    let (p2, date) = take_until_at(chars, p1, "\n")?;
    let p3 = newline_at(chars, p2)?;
    Ok((p3, date))
}

/// Parse subject
pub fn parse_subject(chars: &Vec<char>, pos: usize) -> (r: Result<(usize, String), PatchError>)
    requires
        pos <= chars.len(),
    ensures
        agrees(r, subject_at(chars@, pos as int)),
        r matches Ok((q, _)) ==> pos <= q <= chars.len(),
{
    let p1 = tag_at(chars, pos, "Subject: ")?;
    take_until_at(chars, p1, "---")
}

/// Parse file stats
pub fn parse_file_stats(chars: &Vec<char>, pos: usize) -> (r: Result<(usize, FileStat), PatchError>)
    requires
        pos <= chars.len(),
    ensures
        agrees(r, file_stats_at(chars@, pos as int)),
        r matches Ok((q, _)) ==> pos < q <= chars.len(),
{
    let (p1, _) = take_while1_at(chars, pos, CharClass::Space)?;
    let (p2, path) = take_until_trimmed_at(chars, p1, " | ")?;
    let p3 = tag_at(chars, p2, " | ")?;
    let (p4, _) = take_while_at(chars, p3, CharClass::Space)?;
    let (p5, _) = take_while1_at(chars, p4, CharClass::Digit)?;
    proof {
        lemma_run_end_bounds(chars@, p4 as int, CharClass::Digit);
    }
    let (p6, _) = take_while_at(chars, p5, CharClass::Space)?;
    let (p7, _) = take_while_at(chars, p6, CharClass::PlusMinus)?;
    let p8 = newline_at(chars, p7)?;
    match decimal_at(chars, p4, p5) {
        Some(n) => Ok((p8, FileStat { path, changed_lines: n })),
        None => Err(PatchError::Failure),
    }
}

/// Parse diff
pub fn parse_diff(chars: &Vec<char>, pos: usize) -> (r: Result<(usize, Diff), PatchError>)
    requires
        pos <= chars.len(),
    ensures
        agrees(r, diff_at(chars@, pos as int)),
        r matches Ok((q, _)) ==> pos < q <= chars.len(),
{
    reveal(diff_at);
    // diff --git a/foo b/foo
    let p1 = tag_at(chars, pos, "diff --git ")?;
    let p2 = tag_at(chars, p1, "a/")?;
    let (p3, old_path) = take_until_at(chars, p2, " ")?;
    let (p4, _) = take_while1_at(chars, p3, CharClass::Space)?;
    let p5 = tag_at(chars, p4, "b/")?;
    let (p6, new_path) = take_until_at(chars, p5, "\n")?;
    let p7 = newline_at(chars, p6)?;
    // Everything until next diff, patch end, or EOF
    let next_diff = chars_of("\ndiff --git ");
    let mail_end = chars_of("\n--\n");
    let end = match find_from(chars, &next_diff, p7) {
        Some(q) => q,
        None => match find_from(chars, &mail_end, p7) {
            Some(q) => q,
            None => chars.len(),
        },
    };
    proof {
        lemma_first_at_bounds(chars@, next_diff@, p7 as int);
        lemma_first_at_bounds(chars@, mail_end@, p7 as int);
    }
    let content = string_of(chars, p7, end);
    Ok((end, Diff { old_path, new_path, content }))
}

/// Reads `, <count><label>` (the label in its plural or singular form), the
/// range of the digits being handed back.
pub fn parse_labelled_count(chars: &Vec<char>, pos: usize, plural: &str, singular: &str) -> (r: Result<
    (usize, (usize, usize)),
    PatchError,
>)
    requires
        pos <= chars.len(),
    ensures
        match r {
            Ok((q, (from, to))) => labelled_count_at(chars@, pos as int, plural@, singular@) == Step::Done(
                q as int,
                chars@.subrange(from as int, to as int),
            ) && from < to <= chars.len() && crate::text::all_digits(
                chars@.subrange(from as int, to as int),
            ),
            Err(PatchError::Error) => labelled_count_at(chars@, pos as int, plural@, singular@) is Error,
            Err(PatchError::Failure) => false,
        },
        r matches Ok((q, _)) ==> pos <= q <= chars.len(),
{
    let p1 = tag_at(chars, pos, ", ")?;
    let e = crate::text::run_end_from(chars, p1, CharClass::Digit);
    if e == p1 {
        return Err(PatchError::Error);
    }
    proof {
        lemma_run_end_bounds(chars@, p1 as int, CharClass::Digit);
        assert(crate::text::all_digits(chars@.subrange(p1 as int, e as int)));
    }
    let p3 = tag_either_at(chars, e, plural, singular)?;
    Ok((p3, (p1, e)))
}

/// Parse summary
pub fn parse_summary(chars: &Vec<char>, pos: usize) -> (r: Result<
    (usize, (usize, usize, usize)),
    PatchError,
>)
    requires
        pos <= chars.len(),
    ensures
        agrees(r, summary_at(chars@, pos as int)),
        r matches Ok((q, _)) ==> pos < q <= chars.len(),
{
    let (p1, _) = take_while1_at(chars, pos, CharClass::Space)?;
    let files_end = crate::text::run_end_from(chars, p1, CharClass::Digit);
    if files_end == p1 {
        return Err(PatchError::Error);
    }
    proof {
        lemma_run_end_bounds(chars@, p1 as int, CharClass::Digit);
        assert(crate::text::all_digits(chars@.subrange(p1 as int, files_end as int)));
    }
    let p3 = tag_either_at(chars, files_end, " files changed", " file changed")?;
    // Optionally parse insertions
    let (p4, insertions) = match parse_labelled_count(chars, p3, " insertions(+)", " insertion(+)") {
        Ok((q, digits)) => (q, Some(digits)),
        Err(_) => (p3, None),
    };
    // Optionally parse deletions
    let (p5, deletions) = match parse_labelled_count(chars, p4, " deletions(-)", " deletion(-)") {
        Ok((q, digits)) => (q, Some(digits)),
        Err(_) => (p4, None),
    };
    let (p6, _) = take_until_at(chars, p5, "\n")?;
    let p7 = newline_at(chars, p6)?;
    let files = match decimal_at(chars, p1, files_end) {
        Some(n) => n,
        None => return Err(PatchError::Failure),
    };
    let ins = match insertions {
        Some((from, to)) => match decimal_at(chars, from, to) {
            Some(n) => n,
            None => return Err(PatchError::Failure),
        },
        None => 0,
    };
    let del = match deletions {
        Some((from, to)) => match decimal_at(chars, from, to) {
            Some(n) => n,
            None => return Err(PatchError::Failure),
        },
        None => 0,
    };
    Ok((p7, (files, ins, del)))
}

/// Parse stats
pub fn parse_stats(chars: &Vec<char>, pos: usize) -> (r: Result<
    (usize, (Vec<FileStat>, usize, usize, usize)),
    PatchError,
>)
    requires
        pos <= chars.len(),
    ensures
        match r {
            Ok((q, (stats, files, ins, del))) => stats_at(chars@, pos as int) == Step::Done(
                q as int,
                (views(stats@), (files, ins, del)),
            ),
            Err(PatchError::Error) => stats_at(chars@, pos as int) is Error,
            Err(PatchError::Failure) => stats_at(chars@, pos as int) is Failure,
        },
        r matches Ok((q, _)) ==> pos < q <= chars.len(),
{
    let mut stats: Vec<FileStat> = Vec::new();
    let mut i = pos;
    loop
        invariant
            pos <= i <= chars.len(),
            stats_at(chars@, pos as int) == prepend_stats(views(stats@), stats_at(chars@, i as int)),
        decreases chars.len() - i,
    {
        match parse_summary(chars, i) {
            Ok((q, (files, ins, del))) => {
                assert(views(stats@) + Seq::<FileStatView>::empty() =~= views(stats@));
                return Ok((q, (stats, files, ins, del)));
            },
            Err(PatchError::Failure) => {
                return Err(PatchError::Failure);
            },
            Err(PatchError::Error) => {
                let (q, fs) = parse_file_stats(chars, i)?;
                if q == i {
                    return Err(PatchError::Error);
                }
                let ghost before = views(stats@);
                stats.push(fs);
                proof {
                    assert(views(stats@) =~= before.push(fs@));
                    assert(forall|o: Step<(Seq<FileStatView>, (usize, usize, usize))>|
                        #![auto]
                        prepend_stats(before, prepend_stats(seq![fs@], o)) == prepend_stats(
                            views(stats@),
                            o,
                        )) by {
                        assert(before + seq![fs@] =~= views(stats@));
                        assert forall|more: Seq<FileStatView>| #![auto]
                            before + (seq![fs@] + more) =~= views(stats@) + more by {}
                    }
                }
                i = q;
            },
        }
    }
}

/// Reads ` <text>` and a line ending.
fn parse_extra_line(chars: &Vec<char>, pos: usize) -> (r: Result<(usize, String), PatchError>)
    requires
        pos <= chars.len(),
    ensures
        agrees(r, extra_line_at(chars@, pos as int)),
        r matches Ok((q, _)) ==> pos < q <= chars.len(),
{
    let p1 = crate::text::char_at(chars, pos, ' ')?;
    let (p2, line) = crate::text::not_line_ending_at(chars, p1)?;
    let p3 = crate::text::line_ending_at(chars, p2)?;
    Ok((p3, line))
}

/// Reads as many extra statistics lines as there are.
fn parse_extra_lines(chars: &Vec<char>, pos: usize) -> (r: Result<(usize, Vec<String>), PatchError>)
    requires
        pos <= chars.len(),
    ensures
        match r {
            Ok((q, lines)) => extra_lines_at(chars@, pos as int) == Step::Done(
                q as int,
                views(lines@),
            ),
            Err(PatchError::Error) => extra_lines_at(chars@, pos as int) is Error,
            Err(PatchError::Failure) => extra_lines_at(chars@, pos as int) is Failure,
        },
        r matches Ok((q, _)) ==> pos <= q <= chars.len(),
{
    let mut lines: Vec<String> = Vec::new();
    let mut i = pos;
    loop
        invariant
            pos <= i <= chars.len(),
            extra_lines_at(chars@, pos as int) == (match extra_lines_at(chars@, i as int) {
                Step::Done(r, more) => Step::Done(r, views(lines@) + more),
                Step::Error => Step::Error,
                Step::Failure => Step::Failure,
            }),
        decreases chars.len() - i,
    {
        match parse_extra_line(chars, i) {
            Ok((q, line)) => {
                let ghost before = views(lines@);
                lines.push(line);
                proof {
                    assert(views(lines@) =~= before.push(line@));
                    assert forall|more: Seq<Seq<char>>| #![auto]
                        before + (seq![line@] + more) =~= views(lines@) + more by {}
                }
                i = q;
            },
            Err(PatchError::Error) => {
                assert(views(lines@) + Seq::<Seq<char>>::empty() =~= views(lines@));
                return Ok((i, lines));
            },
            Err(PatchError::Failure) => {
                return Err(PatchError::Failure);
            },
        }
    }
}

/// Reads what follows the summary line up to the empty line.
fn parse_more_stats(chars: &Vec<char>, pos: usize) -> (r: Result<(usize, Vec<String>), PatchError>)
    requires
        pos <= chars.len(),
    ensures
        match r {
            Ok((q, lines)) => more_stats_at(chars@, pos as int) == Step::Done(
                q as int,
                views(lines@),
            ),
            Err(PatchError::Error) => more_stats_at(chars@, pos as int) is Error,
            Err(PatchError::Failure) => more_stats_at(chars@, pos as int) is Failure,
        },
        r matches Ok((q, _)) ==> pos <= q <= chars.len(),
{
    match newline_at(chars, pos) {
        Ok(q) => {
            let lines: Vec<String> = Vec::new();
            assert(views(lines@) =~= Seq::<Seq<char>>::empty());
            Ok((q, lines))
        },
        Err(_) => {
            let (p1, lines) = parse_extra_lines(chars, pos)?;
            let p2 = newline_at(chars, p1)?;
            Ok((p2, lines))
        },
    }
}

/// Reads diffs one after the other from `pos` on.
pub fn parse_diffs_from(chars: &Vec<char>, pos: usize) -> (diffs: Vec<Diff>)
    requires
        pos <= chars.len(),
    ensures
        views(diffs@) == diffs_from(chars@, pos as int),
{
    let mut diffs: Vec<Diff> = Vec::new();
    let mut i = pos;
    loop
        invariant_except_break
            pos <= i <= chars.len(),
            views(diffs@) + diffs_from(chars@, i as int) == diffs_from(chars@, pos as int),
        ensures
            views(diffs@) == diffs_from(chars@, pos as int),
        decreases chars.len() - i,
    {
        proof {
            lemma_diffs_from_unfold(chars@, i as int);
        }
        match parse_diff(chars, i) {
            Ok((q, diff)) => {
                let ghost before = views(diffs@);
                let ghost d = diff@;
                diffs.push(diff);
                assert(views(diffs@) =~= before.push(d));
                let r = match newline_at(chars, q) {
                    Ok(r) => r,
                    Err(_) => q,
                };
                if r == chars.len() {
                    assert(before + seq![d] =~= views(diffs@));
                    break ;
                }
                assert(before + (seq![d] + diffs_from(chars@, r as int)) =~= views(diffs@)
                    + diffs_from(chars@, r as int));
                i = r;
            },
            Err(_) => {
                assert(views(diffs@) + Seq::<DiffView>::empty() =~= views(diffs@));
                break ;
            },
        }
    }
    diffs
}

/// Reads a whole `git format-patch` mail from `pos` on.
pub fn read_patch(chars: &Vec<char>, pos: usize) -> (r: Result<(usize, PatchFile), PatchError>)
    requires
        pos <= chars.len(),
    ensures
        agrees(r, patch_at(chars@, pos as int)),
        r matches Ok((q, _)) ==> pos <= q <= chars.len(),
{
    let (p1, commit_hash) = parse_commit_hash(chars, pos)?;
    let (p2, (author, email)) = parse_author(chars, p1)?;
    let (p3, date) = parse_date(chars, p2)?;
    let (p4, subject) = parse_subject(chars, p3)?;
    let p5 = tag_at(chars, p4, "---\n")?;
    let (p6, (file_stats, files_changes, insertions, deletions)) = parse_stats(chars, p5)?;
    let (p7, more_file_stats) = parse_more_stats(chars, p6)?;
    let diffs = parse_diffs_from(chars, p7);
    Ok(
        (
            p7,
            PatchFile {
                metadata: Some(
                    PatchMetadata {
                        commit_hash,
                        author,
                        email,
                        date,
                        subject,
                        file_stats,
                        more_file_stats,
                        files_changes,
                        insertions,
                        deletions,
                    },
                ),
                diffs,
            },
        ),
    )
}

/// Parse many diff
pub fn parse_many_diffs(input: &str) -> (diffs: Vec<Diff>)
    ensures
        views(diffs@) == diffs_from(input@, 0),
{
    let chars = chars_of(input);
    parse_diffs_from(&chars, 0)
}

/// Parse patch
pub fn parse_patch<'a>(input: &'a str) -> (r: Result<(&'a str, PatchFile), PatchError>)
    ensures
        read_agrees(input@, r, patch_at(input@, 0)),
{
    let chars = chars_of(input);
    let (q, patch) = read_patch(&chars, 0)?;
    let rest = input.substring_char(q, chars.len());
    Ok((rest, patch))
}

/// Parse file
pub fn parse_file<'a>(input: &'a str) -> (r: Result<(&'a str, PatchFile), PatchError>)
    ensures
        read_agrees(input@, r, file_at(input@)),
{
    let chars = chars_of(input);
    let from = chars_of("From");
    if matches_at(&chars, 0, &from) {
        let (q, patch) = read_patch(&chars, 0)?;
        let rest = input.substring_char(q, chars.len());
        return Ok((rest, patch));
    }
    let diffs = parse_diffs_from(&chars, 0);
    let rest = input.substring_char(0, chars.len());
    Ok((rest, PatchFile { metadata: None, diffs }))
}

} // verus!
