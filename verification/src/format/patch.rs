//! patch format parser: the first layout of `git format-patch` mails, with a
//! one-line subject and a summary line that always counts insertions.
use vstd::prelude::*;

pub use crate::patch::{
    is_hex, parse_author, parse_commit_hash, parse_date, Diff, DiffView, FileStat, FileStatView,
};
use crate::patch::{all_of, is_digit_run, lemma_stat_head, lemma_stat_tail, stat_path, after_hash, author_at, commit_hash_at, date_at, is_hex_run, law_commit_hash_line, lemma_commit_hash_within, lemma_date_line, single_word_paths, labelled_count_at, parse_labelled_count, summary_numbers, count_part, count_part_value, valid_count_part, lemma_count_part, lemma_summary_line_end, StatLine, stat_line_text, stat_lines_text, stat_of, plain_stat_line, lemma_prefix_occurs, lemma_stat_line_not_summary, lemma_stat_line_head, lemma_author_reads, lemma_date_reads, lemma_take_until_reads, lemma_occurs_in_piece, diff_record};
use crate::text::{
    agrees, all_digits, chars_of, decimal_at, decimal_usize, find_from, group_step_bounds,
    lemma_first_at_bounds, lemma_run_end_bounds, newline, newline_at, read_agrees, run_end_from,
    string_of, tag, tag_at, tag_either_at, take_until_trimmed, take_until_trimmed_at, take_until, take_until_at, take_while1, take_while1_at, views,
    advances, decimal_value, lemma_halves, lemma_piece, lemma_run_end_exact, run_end, lemma_occurs_one, lemma_first_at_exact, lemma_first_at_none, lemma_take_until_excludes, contains_seq, first_at, occurs_at, CharClass, PatchError, Step,
};

verus! {

broadcast use group_step_bounds;

/// Patch file
#[derive(Debug)]
pub struct PatchFile {
    /// Commit hash
    pub commit_hash: String,
    /// Author
    pub author: String,
    /// Email
    pub email: String,
    /// Date
    pub date: String,
    /// Subject
    pub subject: String,
    /// File stats
    pub file_stats: Vec<FileStat>,
    /// Number of insertions
    pub insertions: usize,
    /// Number of deletions
    pub deletions: usize,
    /// Diffs
    pub diffs: Vec<Diff>,
}

/// What a [`PatchFile`] holds, as mathematical values.
pub struct PatchFileView {
    pub commit_hash: Seq<char>,
    pub author: Seq<char>,
    pub email: Seq<char>,
    pub date: Seq<char>,
    pub subject: Seq<char>,
    pub file_stats: Seq<FileStatView>,
    pub insertions: usize,
    pub deletions: usize,
    pub diffs: Seq<DiffView>,
}

impl View for PatchFile {
    type V = PatchFileView;

    open spec fn view(&self) -> PatchFileView {
        PatchFileView {
            commit_hash: self.commit_hash@,
            author: self.author@,
            email: self.email@,
            date: self.date@,
            subject: self.subject@,
            file_stats: views(self.file_stats@),
            insertions: self.insertions,
            deletions: self.deletions,
            diffs: views(self.diffs@),
        }
    }
}

/// `Subject: <subject>\n`: the subject line.
pub open spec fn subject_at(s: Seq<char>, p: int) -> Step<Seq<char>> {
    tag(s, p, "Subject: "@).and_then(
        |p1: int, u: ()|
            take_until(s, p1, "\n"@).and_then(
                |p2: int, subject: Seq<char>|
                    newline(s, p2).and_then(|p3: int, v: ()| Step::Done(p3, subject)),
            ),
    )
}

/// ` <path> | <count> <+++-->\n`: the statistics line of one file; the path is
/// the text before ` | ` without the spaces that pad it to a column.
#[verifier::opaque]
pub open spec fn file_stats_at(s: Seq<char>, p: int) -> Step<FileStatView> {
    take_while1(s, p, CharClass::Space).and_then(
        |p1: int, a: Seq<char>|
            take_until_trimmed(s, p1, " | "@).and_then(
                |p2: int, path: Seq<char>|
                    tag(s, p2, " | "@).and_then(
                        |p3: int, u: ()|
                            take_while1(s, p3, CharClass::Digit).and_then(
                                |p4: int, count: Seq<char>|
                                    take_while1(s, p4, CharClass::Space).and_then(
                                        |p5: int, b: Seq<char>|
                                            take_while1(s, p5, CharClass::PlusMinus).and_then(
                                                |p6: int, c: Seq<char>|
                                                    newline(s, p6).and_then(
                                                        |p7: int, v: ()|
                                                            match decimal_usize(count) {
                                                                Some(n) => Step::Done(
                                                                    p7,
                                                                    FileStatView {
                                                                        path,
                                                                        changed_lines: n,
                                                                    },
                                                                ),
                                                                None => Step::Failure,
                                                            },
                                                    ),
                                            ),
                                    ),
                            ),
                    ),
            ),
    )
}

/// Where the text of a diff ends: before the next `\ndiff --git `, else before
/// the `\n--\n` that closes a mail; where neither follows, the text is all the
/// rest but the cursor stays where the text begins.
pub open spec fn diff_body(s: Seq<char>, p: int) -> (int, Seq<char>) {
    match take_until(s, p, "\ndiff --git "@).or_else(take_until(s, p, "\n--\n"@)) {
        Step::Done(q, c) => (q, c),
        _ => (p, s.subrange(p, s.len() as int)),
    }
}

/// `\ndiff --git a/<old> b/<new>\n<content>`: one diff.
#[verifier::opaque]
pub open spec fn diff_at(s: Seq<char>, p: int) -> Step<DiffView> {
    newline(s, p).and_then(
        |p0: int, z: ()|
            tag(s, p0, "diff --git "@).and_then(
                |p1: int, u: ()|
                    tag(s, p1, "a/"@).and_then(
                        |p2: int, v: ()|
                            take_until(s, p2, " "@).and_then(
                                |p3: int, old: Seq<char>|
                                    take_while1(s, p3, CharClass::Space).and_then(
                                        |p4: int, w: Seq<char>|
                                            tag(s, p4, "b/"@).and_then(
                                                |p5: int, x: ()|
                                                    take_until(s, p5, "\n"@).and_then(
                                                        |p6: int, new: Seq<char>|
                                                            newline(s, p6).and_then(
                                                                |p7: int, y: ()|
                                                                    Step::Done(
                                                                        diff_body(s, p7).0,
                                                                        DiffView {
                                                                            old_path: old,
                                                                            new_path: new,
                                                                            content: diff_body(
                                                                                s,
                                                                                p7,
                                                                            ).1,
                                                                        },
                                                                    ),
                                                            ),
                                                    ),
                                            ),
                                    ),
                            ),
                    ),
            ),
    )
}

/// ` <n> files changed, <i> insertions[(+)][, <d> deletions(-)]...\n`, each
/// label also in the singular: the numbers of changed files, of insertions
/// and of deletions (none written counts as zero).
#[verifier::opaque]
pub open spec fn summary_at(s: Seq<char>, p: int) -> Step<(usize, usize, usize)> {
    take_while1(s, p, CharClass::Space).and_then(
        |p1: int, a: Seq<char>|
            take_while1(s, p1, CharClass::Digit).and_then(
                |p2: int, files: Seq<char>|
                    tag(s, p2, " files changed, "@).or_else(tag(s, p2, " file changed, "@)).and_then(
                        |p3: int, u: ()|
                            take_while1(s, p3, CharClass::Digit).and_then(
                                |p4: int, ins: Seq<char>|
                                    tag(s, p4, " insertions"@).or_else(
                                        tag(s, p4, " insertion"@),
                                    ).and_then(
                                        |p5: int, v: ()|
                                            tag(s, p5, "(+)"@).optional(p5).and_then(
                                                |p6: int, plus: Option<()>|
                                                    labelled_count_at(
                                                        s,
                                                        p6,
                                                        " deletions(-)"@,
                                                        " deletion(-)"@,
                                                    ).optional(p6).and_then(
                                                        |p7: int, del: Option<Seq<char>>|
                                                            take_until(s, p7, "\n"@).and_then(
                                                                |p8: int, rest: Seq<char>|
                                                                    newline(s, p8).and_then(
                                                                        |p9: int, w: ()|
                                                                            summary_numbers(
                                                                                p9,
                                                                                files,
                                                                                Some(ins),
                                                                                del,
                                                                            ),
                                                                    ),
                                                            ),
                                                    ),
                                            ),
                                    ),
                            ),
                    ),
            ),
    )
}

/// Puts `pre` in front of the file statistics of a successful step.
pub open spec fn prepend_stats(
    pre: Seq<FileStatView>,
    o: Step<(Seq<FileStatView>, (usize, usize, usize))>,
) -> Step<(Seq<FileStatView>, (usize, usize, usize))> {
    match o {
        Step::Done(q, (more, sum)) => Step::Done(q, (pre + more, sum)),
        Step::Error => Step::Error,
        Step::Failure => Step::Failure,
    }
}

/// File statistics lines until the summary line.
pub open spec fn stats_at(s: Seq<char>, p: int) -> Step<(Seq<FileStatView>, (usize, usize, usize))>
    decreases s.len() - p,
{
    match summary_at(s, p) {
        Step::Done(q, sum) => Step::Done(q, (Seq::empty(), sum)),
        Step::Failure => Step::Failure,
        Step::Error => match file_stats_at(s, p) {
            Step::Done(q, fs) => if q == p {
                Step::Error
            } else {
                proof {
                    lemma_file_stats_advances(s, p);
                }
                prepend_stats(seq![fs], stats_at(s, q))
            },
            Step::Error => Step::Error,
            Step::Failure => Step::Failure,
        },
    }
}

/// Diffs one after the other while they read; the cursor after the last one.
pub open spec fn diffs_from(s: Seq<char>, p: int) -> (int, Seq<DiffView>)
    decreases s.len() - p,
{
    match diff_at(s, p) {
        Step::Done(q, d) => {
            proof {
                lemma_diff_advances(s, p);
            }
            (diffs_from(s, q).0, seq![d] + diffs_from(s, q).1)
        },
        _ => (p, Seq::empty()),
    }
}

/// A whole mail.
pub open spec fn patch_at(s: Seq<char>, p: int) -> Step<PatchFileView> {
    commit_hash_at(s, p).and_then(
        |p1: int, hash: Seq<char>|
            author_at(s, p1).and_then(
                |p2: int, who: (Seq<char>, Seq<char>)|
                    date_at(s, p2).and_then(
                        |p3: int, date: Seq<char>|
                            subject_at(s, p3).and_then(
                                |p4: int, subject: Seq<char>|
                                    take_until(s, p4, "---\n"@).and_then(
                                        |p5: int, x: Seq<char>|
                                            tag(s, p5, "---\n"@).and_then(
                                                |p6: int, u: ()|
                                                    stats_at(s, p6).and_then(
                                                        |
                                                            p7: int,
                                                            st: (Seq<FileStatView>, (usize, usize, usize)),
                                                        |
                                                            Step::Done(
                                                                diffs_from(s, p7).0,
                                                                PatchFileView {
                                                                    commit_hash: hash,
                                                                    author: who.0,
                                                                    email: who.1,
                                                                    date,
                                                                    subject,
                                                                    file_stats: st.0,
                                                                    insertions: st.1.1,
                                                                    deletions: st.1.2,
                                                                    diffs: diffs_from(s, p7).1,
                                                                },
                                                            ),
                                                    ),
                                            ),
                                    ),
                            ),
                    ),
            ),
    )
}

pub proof fn lemma_file_stats_advances(s: Seq<char>, p: int)
    ensures
        advances(file_stats_at(s, p), s, p),
{
    reveal(file_stats_at);
}

pub proof fn lemma_diff_advances(s: Seq<char>, p: int)
    ensures
        advances(diff_at(s, p), s, p),
{
    reveal(diff_at);
    if let Step::Done(q, d) = diff_at(s, p) {
        lemma_first_at_bounds(s, "\ndiff --git "@, q);
    }
}

proof fn lemma_body_has_no_header(s: Seq<char>, p: int)
    requires
        0 <= p <= s.len(),
    ensures
        !contains_seq(diff_body(s, p).1, "\ndiff --git "@),
{
    let pat = "\ndiff --git "@;
    lemma_first_at_bounds(s, pat, p);
    lemma_first_at_bounds(s, "\n--\n"@, p);
    let c = diff_body(s, p).1;
    reveal_strlit("\ndiff --git ");
    let e = match first_at(s, pat, p) {
        Some(i) => i,
        None => match first_at(s, "\n--\n"@, p) {
            Some(i) => i,
            None => s.len() as int,
        },
    };
    assert(c == s.subrange(p, e));
    assert forall|j: int| !occurs_at(c, j, pat) by {
        if occurs_at(c, j, pat) {
            assert(s.subrange(p + j, p + j + pat.len()) =~= c.subrange(j, j + pat.len()));
            assert(occurs_at(s, p + j, pat));
            match first_at(s, pat, p) {
                Some(i) => {
                    assert(p <= p + j < i);
                },
                None => {},
            }
        }
    }
}

proof fn lemma_diff_shape(s: Seq<char>, p: int)
    ensures
        diff_at(s, p) matches Step::Done(q, d) ==> exists|b: int|
            #![trigger diff_body(s, b)]
            0 <= b <= s.len() && d.content == diff_body(s, b).1,
{
    reveal(diff_at);
    if let Step::Done(p0, z) = newline(s, p) {
        if let Step::Done(p1, u) = tag(s, p0, "diff --git "@) {
            if let Step::Done(p2, v) = tag(s, p1, "a/"@) {
                if let Step::Done(p3, old) = take_until(s, p2, " "@) {
                    if let Step::Done(p4, w) = take_while1(s, p3, CharClass::Space) {
                        if let Step::Done(p5, x) = tag(s, p4, "b/"@) {
                            if let Step::Done(p6, new) = take_until(s, p5, "\n"@) {
                                if let Step::Done(p7, y) = newline(s, p6) {
                                    assert(diff_body(s, p7) == diff_body(s, p7));
                                }
                            }
                        }
                    }
                }
            }
        }
    }
}

/// No diff of a mail in this layout holds a diff header in its content: each
/// content stops before the next `\ndiff --git `.
pub proof fn law_diff_content_stops_at_next_header(s: Seq<char>, p: int)
    ensures
        forall|i: int|
            0 <= i < diffs_from(s, p).1.len() ==> !contains_seq(
                #[trigger] diffs_from(s, p).1[i].content,
                "\ndiff --git "@,
            ),
    decreases s.len() - p,
{
    lemma_diff_shape(s, p);
    lemma_diff_advances(s, p);
    if let Step::Done(q, d) = diff_at(s, p) {
        let b = choose|b: int| #![trigger diff_body(s, b)] 0 <= b <= s.len() && d.content == diff_body(s, b).1;
        lemma_body_has_no_header(s, b);
        law_diff_content_stops_at_next_header(s, q);
        assert forall|i: int| 0 <= i < diffs_from(s, p).1.len() implies !contains_seq(
            #[trigger] diffs_from(s, p).1[i].content,
            "\ndiff --git "@,
        ) by {
            if i > 0 {
                assert(diffs_from(s, p).1[i] == diffs_from(s, q).1[i - 1]);
            }
        }
    }
}

proof fn lemma_diff_paths(s: Seq<char>, p: int)
    ensures
        diff_at(s, p) matches Step::Done(q, d) ==> single_word_paths(d),
{
    reveal(diff_at);
    reveal_strlit(" ");
    reveal_strlit("\n");
    assert(" "@ =~= seq![' ']);
    assert("\n"@ =~= seq!['\n']);
    if let Step::Done(p0, z) = newline(s, p) {
        if let Step::Done(p1, u) = tag(s, p0, "diff --git "@) {
            if let Step::Done(p2, v) = tag(s, p1, "a/"@) {
                lemma_take_until_excludes(s, p2, ' ');
                if let Step::Done(p3, old) = take_until(s, p2, " "@) {
                    if let Step::Done(p4, w) = take_while1(s, p3, CharClass::Space) {
                        if let Step::Done(p5, x) = tag(s, p4, "b/"@) {
                            lemma_take_until_excludes(s, p5, '\n');
                        }
                    }
                }
            }
        }
    }
}

proof fn lemma_diffs_paths(s: Seq<char>, p: int)
    ensures
        forall|i: int|
            0 <= i < diffs_from(s, p).1.len() ==> single_word_paths(#[trigger] diffs_from(s, p).1[i]),
    decreases s.len() - p,
{
    lemma_diff_paths(s, p);
    lemma_diff_advances(s, p);
    if let Step::Done(q, d) = diff_at(s, p) {
        lemma_diffs_paths(s, q);
        assert forall|i: int| 1 <= i < diffs_from(s, p).1.len() implies diffs_from(s, p).1[i]
            == diffs_from(s, q).1[i - 1] by {}
    }
}

/// A mail that [`parse_patch`] reads starts with `From ` and its hash, a
/// non-empty run of hexadecimal digits; its date and subject are single
/// lines; no old path holds a space and no new path a line break.
pub proof fn law_mail_fields(s: Seq<char>)
    ensures
        patch_at(s, 0) matches Step::Done(q, v) ==> {
            &&& is_hex_run(v.commit_hash)
            &&& occurs_at(s, 0, "From "@ + v.commit_hash)
            &&& forall|i: int| 0 <= i < v.date.len() ==> #[trigger] v.date[i] != '\n'
            &&& forall|i: int| 0 <= i < v.subject.len() ==> #[trigger] v.subject[i] != '\n'
            &&& forall|i: int| 0 <= i < v.diffs.len() ==> single_word_paths(#[trigger] v.diffs[i])
        },
{
    reveal_strlit("\n");
    assert("\n"@ =~= seq!['\n']);
    if let Step::Done(p1, hash) = commit_hash_at(s, 0) {
        lemma_commit_hash_within(s);
        law_commit_hash_line(s, 0, p1, hash);
        if let Step::Done(p2, who) = author_at(s, p1) {
            lemma_date_line(s, p2);
            if let Step::Done(p3, date) = date_at(s, p2) {
                if let Step::Done(e1, u) = tag(s, p3, "Subject: "@) {
                    lemma_take_until_excludes(s, e1, '\n');
                }
                if let Step::Done(q, v) = patch_at(s, 0) {
                    let x = choose|x: Seq<char>|
                        #![trigger after_hash(x)]
                        after_hash(x) && s.subrange(0, p1) == "From "@ + hash + x + "\n"@;
                    reveal_strlit("From ");
                    assert(s.subrange(0, 5 + hash.len() as int) =~= "From "@ + hash) by {
                        assert forall|i: int| 0 <= i < 5 + hash.len() implies s.subrange(
                            0,
                            5 + hash.len() as int,
                        )[i] == ("From "@ + hash)[i] by {
                            assert(s.subrange(0, p1)[i] == ("From "@ + hash + x + "\n"@)[i]);
                        }
                    }
                    let p7 = choose|p7: int| #![trigger diffs_from(s, p7)] v.diffs == diffs_from(s, p7).1;
                    lemma_diffs_paths(s, p7);
                }
            }
        }
    }
}

/// A statistics line ` <path> | <count> <bar>\n` of this layout reads as the
/// path and the count's value; only a count that does not fit in a `usize` is
/// a failure.
#[verifier::rlimit(60)]
pub proof fn law_file_stat_line(
    s: Seq<char>,
    p: int,
    path: Seq<char>,
    digits: Seq<char>,
    sp: Seq<char>,
    bar: Seq<char>,
)
    requires
        0 <= p,
        stat_path(path),
        is_digit_run(digits),
        sp.len() > 0,
        all_of(sp, CharClass::Space),
        bar.len() > 0,
        all_of(bar, CharClass::PlusMinus),
        p + (" "@ + path + " | "@ + digits + sp + bar + "\n"@).len() <= s.len(),
        s.subrange(p, p + (" "@ + path + " | "@ + digits + sp + bar + "\n"@).len()) == " "@ + path
            + " | "@ + digits + sp + bar + "\n"@,
    ensures
        file_stats_at(s, p) == if decimal_value(digits) <= usize::MAX {
            Step::Done(
                p + (" "@ + path + " | "@ + digits + sp + bar + "\n"@).len(),
                FileStatView { path, changed_lines: decimal_value(digits) as usize },
            )
        } else {
            Step::Failure
        },
{
    reveal(file_stats_at);
    reveal_strlit(" ");
    reveal_strlit(" | ");
    reveal_strlit("\n");
    let h = " "@ + path + " | "@;
    let t = digits + sp + bar + "\n"@;
    let c = " "@ + path + " | "@ + digits + sp + bar + "\n"@;
    assert(c =~= h + t);
    lemma_halves(s, p, h, t);
    assert(h.len() == 4 + path.len());
    lemma_stat_head(s, p, path);
    lemma_stat_tail(s, p + h.len(), digits, sp, bar);
}

/// The `(+)` that may follow the insertions label of this layout.
pub open spec fn plus_mark(plus: bool) -> Seq<char> {
    if plus {
        "(+)"@
    } else {
        Seq::empty()
    }
}

proof fn lemma_summary_head(s: Seq<char>, p: int, n: Seq<char>, changed: Seq<char>)
    requires
        0 <= p,
        changed == " files changed, "@ || changed == " file changed, "@,
        is_digit_run(n),
        p + (" "@ + n + changed).len() <= s.len(),
        s.subrange(p, p + (" "@ + n + changed).len()) == " "@ + n + changed,
    ensures
        take_while1(s, p, CharClass::Space) == Step::Done(p + 1, seq![' ']),
        take_while1(s, p + 1, CharClass::Digit) == Step::Done(p + 1 + n.len(), n),
        tag(s, p + 1 + n.len(), " files changed, "@).or_else(
            tag(s, p + 1 + n.len(), " file changed, "@),
        ) == Step::Done(p + 1 + n.len() + changed.len(), ()),
{
    reveal_strlit(" ");
    reveal_strlit(" files changed, ");
    reveal_strlit(" file changed, ");
    let c = " "@ + n + changed;
    let p1 = p + 1;
    let p2 = p1 + n.len();
    let p3 = p2 + changed.len();
    lemma_piece(s, p, c, 0, c.len() as int);
    assert(c[0] == ' ');
    assert(c[1] == n[0]);
    lemma_run_end_exact(s, p, p1, CharClass::Space);
    assert(s.subrange(p, p1) =~= seq![' ']);
    assert forall|j: int| p1 <= j < p2 implies crate::text::is_digit_char(#[trigger] s[j]) by {
        assert(c[j - p] == n[j - p1]);
    }
    assert(c[p2 - p] == changed[0]);
    lemma_run_end_exact(s, p1, p2, CharClass::Digit);
    lemma_piece(s, p, c, 1, p2 - p);
    assert(c.subrange(1, p2 - p) =~= n);
    lemma_piece(s, p, c, p2 - p, p3 - p);
    assert(c.subrange(p2 - p, p3 - p) =~= changed);
    if changed == " file changed, "@ {
        assert(c[p2 + 5 - p] == changed[5]);
        assert(!occurs_at(s, p2, " files changed, "@)) by {
            if occurs_at(s, p2, " files changed, "@) {
                assert(s.subrange(p2, p2 + 16)[5] == 's');
            }
        }
    }
}

proof fn lemma_summary_insertions(s: Seq<char>, p: int, i: Seq<char>, label: Seq<char>)
    requires
        0 <= p,
        is_digit_run(i),
        label == " insertions"@ || label == " insertion"@,
        p + (i + label).len() < s.len(),
        s.subrange(p, p + (i + label).len()) == i + label,
        s[p + (i + label).len()] != 's',
    ensures
        take_while1(s, p, CharClass::Digit) == Step::Done(p + i.len(), i),
        tag(s, p + i.len(), " insertions"@).or_else(tag(s, p + i.len(), " insertion"@))
            == Step::Done(p + i.len() + label.len(), ()),
{
    reveal_strlit(" insertions");
    reveal_strlit(" insertion");
    let c = i + label;
    let p1 = p + i.len();
    let p2 = p1 + label.len();
    lemma_piece(s, p, c, 0, c.len() as int);
    assert forall|j: int| p <= j < p1 implies crate::text::is_digit_char(#[trigger] s[j]) by {
        assert(c[j - p] == i[j - p]);
    }
    assert(c[p1 - p] == label[0]);
    lemma_run_end_exact(s, p, p1, CharClass::Digit);
    lemma_piece(s, p, c, 0, p1 - p);
    assert(c.subrange(0, p1 - p) =~= i);
    lemma_piece(s, p, c, p1 - p, p2 - p);
    assert(c.subrange(p1 - p, p2 - p) =~= label);
    if label == " insertion"@ {
        assert(!occurs_at(s, p1, " insertions"@)) by {
            if occurs_at(s, p1, " insertions"@) {
                assert(s.subrange(p1, p1 + 11)[10] == 's');
            }
        }
    }
}

/// What follows the insertions label: `(+)` or not, the deletions part or
/// not, and the line's end.
proof fn lemma_summary_rest(s: Seq<char>, p5: int, plus: bool, del: Option<(Seq<char>, Seq<char>)>)
    requires
        0 <= p5,
        valid_count_part(del, false),
        p5 + (plus_mark(plus) + count_part(del) + "\n"@).len() <= s.len(),
        s.subrange(p5, p5 + (plus_mark(plus) + count_part(del) + "\n"@).len()) == plus_mark(plus)
            + count_part(del) + "\n"@,
    ensures
        ({
            let p6 = p5 + plus_mark(plus).len();
            let p7 = p6 + count_part(del).len();
            &&& tag(s, p5, "(+)"@).optional(p5) == Step::Done(p6, if plus {
                Some(())
            } else {
                None
            })
            &&& labelled_count_at(s, p6, " deletions(-)"@, " deletion(-)"@).optional(p6)
                == Step::Done(
                p7,
                match del {
                    Some((d, l)) => Some(d),
                    None => None::<Seq<char>>,
                },
            )
            &&& take_until(s, p7, "\n"@) == Step::Done(p7, Seq::<char>::empty())
            &&& newline(s, p7) == Step::Done(p7 + 1, ())
        }),
{
    reveal_strlit(", ");
    reveal_strlit("\n");
    reveal_strlit("(+)");
    let pm = plus_mark(plus);
    let td = count_part(del);
    let tail = pm + td + "\n"@;
    let p6 = p5 + pm.len();
    let p7 = p6 + td.len();
    assert(tail =~= pm + (td + "\n"@));
    lemma_halves(s, p5, pm, td + "\n"@);
    lemma_halves(s, p6, td, "\n"@);
    assert(s.subrange(p7, p7 + 1)[0] == s[p7]);
    assert(s[p7] == '\n');
    // the optional `(+)`
    if !plus {
        assert(!occurs_at(s, p5, "(+)"@)) by {
            if occurs_at(s, p5, "(+)"@) {
                assert(s.subrange(p5, p5 + 3)[0] == '(');
            }
        }
    }
    assert(tag(s, p5, "(+)"@).optional(p5) == Step::Done(p6, if plus {
        Some(())
    } else {
        None
    }));
    // the optional deletions count, then the end of the line
    lemma_summary_line_end(s, p7);
    let od: Option<Seq<char>> = match del {
        Some((d, l)) => Some(d),
        None => None,
    };
    match del {
        Some((d, l)) => {
            assert(td =~= ", "@ + d + l);
            lemma_count_part(s, p6, d, l, false);
            assert(labelled_count_at(s, p6, " deletions(-)"@, " deletion(-)"@) == Step::Done(p7, d));
        },
        None => {
            assert(labelled_count_at(s, p6, " deletions(-)"@, " deletion(-)"@) is Error);
        },
    }
    assert(labelled_count_at(s, p6, " deletions(-)"@, " deletion(-)"@).optional(p6) == Step::Done(
        p7,
        od,
    ));
}

/// The steps of a summary line of this layout, one after the other.
proof fn lemma_summary_compose(
    s: Seq<char>,
    p: int,
    n: Seq<char>,
    i: Seq<char>,
    plus: Option<()>,
    del: Option<Seq<char>>,
    p2: int,
    p3: int,
    p4: int,
    p5: int,
    p6: int,
    p7: int,
)
    requires
        take_while1(s, p, CharClass::Space) == Step::Done(p + 1, seq![' ']),
        take_while1(s, p + 1, CharClass::Digit) == Step::Done(p2, n),
        tag(s, p2, " files changed, "@).or_else(tag(s, p2, " file changed, "@)) == Step::Done(
            p3,
            (),
        ),
        take_while1(s, p3, CharClass::Digit) == Step::Done(p4, i),
        tag(s, p4, " insertions"@).or_else(tag(s, p4, " insertion"@)) == Step::Done(p5, ()),
        tag(s, p5, "(+)"@).optional(p5) == Step::Done(p6, plus),
        labelled_count_at(s, p6, " deletions(-)"@, " deletion(-)"@).optional(p6) == Step::Done(
            p7,
            del,
        ),
        take_until(s, p7, "\n"@) == Step::Done(p7, Seq::<char>::empty()),
        newline(s, p7) == Step::Done(p7 + 1, ()),
    ensures
        summary_at(s, p) == summary_numbers(p7 + 1, n, Some(i), del),
{
    reveal(summary_at);
}

/// A summary line of this layout, ` <n> files changed, <i> insertions[(+)][, <d>
/// deletions(-)]\n` (each label in its plural or singular form), reads as the
/// numbers `n`, `i` and `d`, an absent deletions count reading as zero; where
/// one of them does not fit in a `usize`, reading fails.
#[verifier::rlimit(100)]
pub proof fn law_summary_line(
    s: Seq<char>,
    p: int,
    n: Seq<char>,
    changed: Seq<char>,
    i: Seq<char>,
    label: Seq<char>,
    plus: bool,
    del: Option<(Seq<char>, Seq<char>)>,
)
    requires
        0 <= p,
        changed == " files changed, "@ || changed == " file changed, "@,
        is_digit_run(n),
        is_digit_run(i),
        label == " insertions"@ || label == " insertion"@,
        valid_count_part(del, false),
        p + (" "@ + n + changed + i + label + plus_mark(plus) + count_part(del) + "\n"@).len()
            <= s.len(),
        s.subrange(
            p,
            p + (" "@ + n + changed + i + label + plus_mark(plus) + count_part(del) + "\n"@).len(),
        ) == " "@ + n + changed + i + label + plus_mark(plus) + count_part(del) + "\n"@,
    ensures
        summary_at(s, p) == if decimal_value(n) <= usize::MAX && decimal_value(i) <= usize::MAX
            && count_part_value(del) <= usize::MAX {
            Step::Done(
                p + (" "@ + n + changed + i + label + plus_mark(plus) + count_part(del)
                    + "\n"@).len(),
                (
                    decimal_value(n) as usize,
                    decimal_value(i) as usize,
                    count_part_value(del) as usize,
                ),
            )
        } else {
            Step::Failure
        },
{
    reveal_strlit(" ");
    reveal_strlit(", ");
    reveal_strlit("\n");
    reveal_strlit("(+)");
    let h = " "@ + n + changed;
    let m = i + label;
    let pm = plus_mark(plus);
    let td = count_part(del);
    let tail = pm + td + "\n"@;
    let c = " "@ + n + changed + i + label + pm + td + "\n"@;
    assert(c =~= h + (m + tail));
    lemma_halves(s, p, h, m + tail);
    let p3 = p + h.len();
    assert(h.len() == 1 + n.len() + changed.len());
    lemma_halves(s, p3, m, tail);
    let p5 = p3 + m.len();
    assert(tail[0] == '(' || tail[0] == ',' || tail[0] == '\n');
    assert(s.subrange(p5, p5 + tail.len())[0] == s[p5]);
    lemma_summary_head(s, p, n, changed);
    lemma_summary_insertions(s, p3, i, label);
    lemma_summary_rest(s, p5, plus, del);
    let p6 = p5 + pm.len();
    let p7 = p6 + td.len();
    assert(c.len() == p7 + 1 - p);
    let od: Option<Seq<char>> = match del {
        Some((d, l)) => Some(d),
        None => None,
    };
    lemma_summary_compose(
        s,
        p,
        n,
        i,
        if plus {
            Some(())
        } else {
            None
        },
        od,
        p3 - changed.len(),
        p3,
        p3 + i.len(),
        p5,
        p6,
        p7,
    );
}

proof fn lemma_summary_stops(s: Seq<char>, p: int, e: int)
    requires
        take_while1(s, p, CharClass::Space) == Step::Done(p + 1, seq![' ']),
        run_end(s, p + 1, CharClass::Digit) == e,
        !occurs_at(s, e, " files changed"@),
        !occurs_at(s, e, " file changed"@),
    ensures
        summary_at(s, p) is Error,
{
    reveal(summary_at);
    reveal_strlit(" files changed");
    reveal_strlit(" file changed");
    reveal_strlit(" files changed, ");
    reveal_strlit(" file changed, ");
    assert(!occurs_at(s, e, " files changed, "@)) by {
        if occurs_at(s, e, " files changed, "@) {
            assert(" files changed, "@.subrange(0, 14) =~= " files changed"@);
            lemma_prefix_occurs(s, e, " files changed, "@, " files changed"@);
        }
    }
    assert(!occurs_at(s, e, " file changed, "@)) by {
        if occurs_at(s, e, " file changed, "@) {
            assert(" file changed, "@.subrange(0, 13) =~= " file changed"@);
            lemma_prefix_occurs(s, e, " file changed, "@, " file changed"@);
        }
    }
}

/// A padded statistics line of this layout reads as its path and count.
proof fn lemma_stat_line_reads(s: Seq<char>, p: int, l: StatLine)
    requires
        0 <= p,
        plain_stat_line(l),
        l.spaces.len() > 0,
        l.bar.len() > 0,
        p + stat_line_text(l).len() <= s.len(),
        s.subrange(p, p + stat_line_text(l).len()) == stat_line_text(l),
    ensures
        file_stats_at(s, p) == Step::Done(p + stat_line_text(l).len(), stat_of(l)),
{
    reveal(file_stats_at);
    reveal_strlit(" ");
    reveal_strlit(" | ");
    reveal_strlit("\n");
    lemma_stat_line_head(s, p, l);
    let p3 = p + 4 + l.path.len() + l.pad.len();
    assert(stat_line_text(l).len() == 4 + l.path.len() + l.pad.len() + l.count.len()
        + l.spaces.len() + l.bar.len() + 1);
    lemma_stat_tail(s, p3, l.count, l.spaces, l.bar);
}

/// Statistics lines of this layout (each with its spaces and a non-empty
/// `+`/`-` bar), one after the other, followed by a summary line, are read
/// whole: each line gives its path and count, in order, and the summary's
/// numbers come with them.
pub proof fn law_stat_lines_read(
    s: Seq<char>,
    p: int,
    ls: Seq<StatLine>,
    q: int,
    sum: (usize, usize, usize),
)
    requires
        0 <= p,
        forall|i: int|
            0 <= i < ls.len() ==> plain_stat_line(#[trigger] ls[i]) && ls[i].spaces.len() > 0
                && ls[i].bar.len() > 0,
        p + stat_lines_text(ls).len() <= s.len(),
        s.subrange(p, p + stat_lines_text(ls).len()) == stat_lines_text(ls),
        summary_at(s, p + stat_lines_text(ls).len()) == Step::Done(q, sum),
    ensures
        stats_at(s, p) == Step::Done(q, (ls.map_values(|l: StatLine| stat_of(l)), sum)),
    decreases ls.len(),
{
    if ls.len() == 0 {
        assert(ls.map_values(|l: StatLine| stat_of(l)) =~= Seq::<FileStatView>::empty());
    } else {
        let l = ls[0];
        let rest = ls.drop_first();
        let t0 = stat_line_text(l);
        lemma_halves(s, p, t0, stat_lines_text(rest));
        let e = lemma_stat_line_not_summary(s, p, l);
        lemma_summary_stops(s, p, e);
        lemma_stat_line_reads(s, p, l);
        assert(t0.len() > 0);
        assert forall|i: int| 0 <= i < rest.len() implies plain_stat_line(#[trigger] rest[i])
            && rest[i].spaces.len() > 0 && rest[i].bar.len() > 0 by {
            assert(rest[i] == ls[i + 1]);
        }
        assert(stat_lines_text(ls).len() == t0.len() + stat_lines_text(rest).len());
        law_stat_lines_read(s, p + t0.len(), rest, q, sum);
        assert(seq![stat_of(l)] + rest.map_values(|l: StatLine| stat_of(l)) =~= ls.map_values(
            |l: StatLine| stat_of(l),
        ));
    }
}

proof fn lemma_subject_reads(s: Seq<char>, p: int, t: Seq<char>)
    requires
        0 <= p,
        forall|i: int| 0 <= i < t.len() ==> #[trigger] t[i] != '\n',
        p + ("Subject: "@ + t + "\n"@).len() <= s.len(),
        s.subrange(p, p + ("Subject: "@ + t + "\n"@).len()) == "Subject: "@ + t + "\n"@,
    ensures
        subject_at(s, p) == Step::Done(p + ("Subject: "@ + t + "\n"@).len(), t),
{
    reveal_strlit("Subject: ");
    reveal_strlit("\n");
    let p1 = p + 9;
    assert("Subject: "@ + t + "\n"@ =~= "Subject: "@ + (t + "\n"@));
    lemma_halves(s, p, "Subject: "@, t + "\n"@);
    assert forall|i: int| p1 <= i < p1 + t.len() implies !#[trigger] occurs_at(s, i, "\n"@) by {
        if occurs_at(s, i, "\n"@) {
            lemma_occurs_in_piece(s, p1, t + "\n"@, "\n"@, i);
            assert((t + "\n"@).subrange(i - p1, i - p1 + 1)[0] == t[i - p1]);
        }
    }
    lemma_take_until_reads(s, p1, t, "\n"@);
    assert("\n"@ =~= seq!['\n']);
    lemma_occurs_one(s, p1 + t.len(), '\n');
}

/// Text before `---\n` that holds no `---\n` is read up to it.
proof fn lemma_body_reads(s: Seq<char>, p: int, b: Seq<char>)
    requires
        0 <= p,
        !contains_seq(b, "---\n"@),
        p + (b + "---\n"@).len() <= s.len(),
        s.subrange(p, p + (b + "---\n"@).len()) == b + "---\n"@,
    ensures
        take_until(s, p, "---\n"@) == Step::Done(p + b.len(), b),
        tag(s, p + b.len(), "---\n"@) == Step::Done(p + b.len() + 4, ()),
{
    reveal_strlit("---\n");
    let e = p + b.len();
    assert forall|i: int| p <= i < e implies !#[trigger] occurs_at(s, i, "---\n"@) by {
        if occurs_at(s, i, "---\n"@) {
            if i + 4 <= e {
                lemma_occurs_in_piece(s, p, b + "---\n"@, "---\n"@, i);
                assert((b + "---\n"@).subrange(i - p, i - p + 4) =~= b.subrange(i - p, i - p + 4));
                assert(occurs_at(b, i - p, "---\n"@));
            } else {
                assert(s.subrange(i, i + 4)[3] == s[i + 3]);
                assert(s.subrange(p, p + b.len() + 4)[i + 3 - p] == s[i + 3]);
                assert((b + "---\n"@)[i + 3 - p] == '-');
            }
        }
    }
    lemma_take_until_reads(s, p, b, "---\n"@);
}

/// The head of a mail of this layout up to and including its `---` line:
/// the `From ` line (hash and rest `x`), the author, date and subject lines,
/// then the message `body`.
pub open spec fn mail_head(v: PatchFileView, x: Seq<char>, body: Seq<char>) -> Seq<char> {
    "From "@ + v.commit_hash + x + "\nFrom: "@ + v.author + " <"@ + v.email + ">\nDate: "@
        + v.date + "\nSubject: "@ + v.subject + "\n"@ + body + "---\n"@
}

/// The summary line of this layout.
pub open spec fn summary_line_text(
    n: Seq<char>,
    changed: Seq<char>,
    i: Seq<char>,
    label: Seq<char>,
    plus: bool,
    del: Option<(Seq<char>, Seq<char>)>,
) -> Seq<char> {
    " "@ + n + changed + i + label + plus_mark(plus) + count_part(del) + "\n"@
}

/// A mail of this layout written as its head, statistics lines and a summary
/// line, each part well formed, is read with exactly the fields that were
/// written: hash, author, email, date, subject, the file statistics in order
/// and the insertions and deletions counts; the diffs are read right after
/// the summary line.
#[verifier::rlimit(100)]
pub proof fn law_mail_reads(
    s: Seq<char>,
    v: PatchFileView,
    x: Seq<char>,
    body: Seq<char>,
    ls: Seq<StatLine>,
    n: Seq<char>,
    changed: Seq<char>,
    i: Seq<char>,
    label: Seq<char>,
    plus: bool,
    del: Option<(Seq<char>, Seq<char>)>,
)
    requires
        is_hex_run(v.commit_hash),
        after_hash(x),
        !contains_seq(v.author, " <"@),
        forall|k: int| 0 <= k < v.email.len() ==> #[trigger] v.email[k] != '>',
        forall|k: int| 0 <= k < v.date.len() ==> #[trigger] v.date[k] != '\n',
        forall|k: int| 0 <= k < v.subject.len() ==> #[trigger] v.subject[k] != '\n',
        !contains_seq(body, "---\n"@),
        forall|k: int|
            0 <= k < ls.len() ==> plain_stat_line(#[trigger] ls[k]) && ls[k].spaces.len() > 0
                && ls[k].bar.len() > 0,
        changed == " files changed, "@ || changed == " file changed, "@,
        is_digit_run(n),
        is_digit_run(i),
        label == " insertions"@ || label == " insertion"@,
        valid_count_part(del, false),
        decimal_value(n) <= usize::MAX,
        decimal_value(i) <= usize::MAX,
        count_part_value(del) <= usize::MAX,
        v.file_stats == ls.map_values(|l: StatLine| stat_of(l)),
        v.insertions == decimal_value(i),
        v.deletions == count_part_value(del),
        (mail_head(v, x, body) + stat_lines_text(ls) + summary_line_text(n, changed, i, label, plus, del)).len() <= s.len(),
        s.subrange(
            0,
            (mail_head(v, x, body) + stat_lines_text(ls) + summary_line_text(n, changed, i, label, plus, del)).len() as int,
        ) == mail_head(v, x, body) + stat_lines_text(ls) + summary_line_text(n, changed, i, label, plus, del),
    ensures
        ({
            let q = (mail_head(v, x, body) + stat_lines_text(ls) + summary_line_text(n, changed, i, label, plus, del)).len() as int;
            patch_at(s, 0) == Step::Done(
                diffs_from(s, q).0,
                PatchFileView {
                    commit_hash: v.commit_hash,
                    author: v.author,
                    email: v.email,
                    date: v.date,
                    subject: v.subject,
                    file_stats: v.file_stats,
                    insertions: v.insertions,
                    deletions: v.deletions,
                    diffs: diffs_from(s, q).1,
                },
            )
        }),
{
    reveal_strlit("From ");
    reveal_strlit("\n");
    reveal_strlit("\nFrom: ");
    reveal_strlit("From: ");
    reveal_strlit(" <");
    reveal_strlit(">\n");
    reveal_strlit(">\nDate: ");
    reveal_strlit("Date: ");
    reveal_strlit("\nSubject: ");
    reveal_strlit("Subject: ");
    reveal_strlit("---\n");
    let a = "From "@ + v.commit_hash + x + "\n"@;
    let b = "From: "@ + v.author + " <"@ + v.email + ">\n"@;
    let c = "Date: "@ + v.date + "\n"@;
    let d = "Subject: "@ + v.subject + "\n"@;
    let e = body + "---\n"@;
    let st = stat_lines_text(ls);
    let u = summary_line_text(n, changed, i, label, plus, del);
    let all = mail_head(v, x, body) + st + u;
    assert("\n"@ + "From: "@ =~= "\nFrom: "@);
    assert(">\n"@ + "Date: "@ =~= ">\nDate: "@);
    assert("\n"@ + "Subject: "@ =~= "\nSubject: "@);
    assert(all =~= a + (b + (c + (d + (e + (st + u))))));
    lemma_halves(s, 0, a, b + (c + (d + (e + (st + u)))));
    let p1 = a.len() as int;
    lemma_halves(s, p1, b, c + (d + (e + (st + u))));
    let p2 = p1 + b.len();
    lemma_halves(s, p2, c, d + (e + (st + u)));
    let p3 = p2 + c.len();
    lemma_halves(s, p3, d, e + (st + u));
    let p4 = p3 + d.len();
    lemma_halves(s, p4, e, st + u);
    let p6 = p4 + e.len();
    lemma_halves(s, p6, st, u);
    let p7 = p6 + st.len();
    let q = p7 + u.len();
    law_commit_hash_line(s, 0, p1, v.commit_hash);
    assert(after_hash(x) && s.subrange(0, p1) == "From "@ + v.commit_hash + x + "\n"@);
    lemma_author_reads(s, p1, v.author, v.email);
    lemma_date_reads(s, p2, v.date);
    lemma_subject_reads(s, p3, v.subject);
    lemma_body_reads(s, p4, body);
    law_summary_line(s, p7, n, changed, i, label, plus, del);
    law_stat_lines_read(s, p6, ls, q, (
        decimal_value(n) as usize,
        decimal_value(i) as usize,
        count_part_value(del) as usize,
    ));
}

/// `t` ends with `\n--`, so that a `--\n` right after it would close a
/// `\n--\n` begun inside it.
pub open spec fn ends_with_dashes(t: Seq<char>) -> bool {
    t.len() >= 3 && t.subrange(t.len() - 3, t.len() as int) == "\n--"@
}

/// One diff written as `\n` and its text at `p` reads back as itself when it
/// is followed by the next diff header or, for the last one, by `\n--\n`
/// with no diff header after it.
#[verifier::rlimit(100)]
proof fn lemma_diff_reads(s: Seq<char>, p: int, d: DiffView, last: bool)
    requires
        0 <= p,
        p + 1 + diff_record(d).len() <= s.len(),
        s.subrange(p, p + 1 + diff_record(d).len()) == "\n"@ + diff_record(d),
        single_word_paths(d),
        !contains_seq(d.content, "\ndiff --git "@),
        !last ==> occurs_at(s, p + 1 + diff_record(d).len(), "\ndiff --git "@),
        last ==> occurs_at(s, p + 1 + diff_record(d).len(), "\n--\n"@),
        last ==> forall|j: int|
            p + 1 + diff_record(d).len() <= j ==> !#[trigger] occurs_at(s, j, "\ndiff --git "@),
        last ==> !contains_seq(d.content, "\n--\n"@) && !ends_with_dashes(d.content),
    ensures
        diff_at(s, p) == Step::Done(p + 1 + diff_record(d).len(), d),
{
    reveal(diff_at);
    reveal_strlit("diff --git a/");
    reveal_strlit("diff --git ");
    reveal_strlit("a/");
    reveal_strlit(" b/");
    reveal_strlit("b/");
    reveal_strlit(" ");
    reveal_strlit("\n");
    reveal_strlit("\ndiff --git ");
    reveal_strlit("\n--\n");
    reveal_strlit("\n--");
    let pat = "\ndiff --git "@;
    let end = "\n--\n"@;
    let r = "\n"@ + diff_record(d);
    let n = p + r.len();
    let p0 = p + 1;
    let p1 = p0 + 11;
    let p2 = p1 + 2;
    let p3 = p2 + d.old_path.len();
    let p4 = p3 + 1;
    let p5 = p4 + 2;
    let p6 = p5 + d.new_path.len();
    let p7 = p6 + 1;
    assert(n == p7 + d.content.len());
    lemma_piece(s, p, r, 0, r.len() as int);
    assert(s[p] == '\n');
    assert(s.subrange(p0, p1) =~= "diff --git "@) by {
        lemma_piece(s, p, r, 1, 12);
        assert(r.subrange(1, 12) =~= "diff --git "@);
    }
    assert(s.subrange(p1, p2) =~= "a/"@) by {
        lemma_piece(s, p, r, 12, 14);
        assert(r.subrange(12, 14) =~= "a/"@);
    }
    assert(" "@ =~= seq![' ']);
    assert("\n"@ =~= seq!['\n']);
    assert forall|i: int| p2 <= i < p3 implies !#[trigger] occurs_at(s, i, " "@) by {
        lemma_occurs_one(s, i, ' ');
        assert(r[i - p] == d.old_path[i - p2]);
    }
    assert(s[p3] == ' ') by {
        assert(r[p3 - p] == ' ');
    }
    lemma_occurs_one(s, p3, ' ');
    lemma_first_at_exact(s, " "@, p2, p3);
    assert(s.subrange(p2, p3) =~= d.old_path) by {
        lemma_piece(s, p, r, p2 - p, p3 - p);
        assert(r.subrange(p2 - p, p3 - p) =~= d.old_path);
    }
    assert(s[p4] == 'b') by {
        assert(r[p4 - p] == 'b');
    }
    lemma_run_end_exact(s, p3, p4, CharClass::Space);
    assert(s.subrange(p3, p4) =~= seq![' ']);
    assert(s.subrange(p4, p5) =~= "b/"@) by {
        lemma_piece(s, p, r, p4 - p, p5 - p);
        assert(r.subrange(p4 - p, p5 - p) =~= "b/"@);
    }
    assert forall|i: int| p5 <= i < p6 implies !#[trigger] occurs_at(s, i, "\n"@) by {
        lemma_occurs_one(s, i, '\n');
        assert(r[i - p] == d.new_path[i - p5]);
    }
    assert(s[p6] == '\n') by {
        assert(r[p6 - p] == '\n');
    }
    lemma_occurs_one(s, p6, '\n');
    lemma_first_at_exact(s, "\n"@, p5, p6);
    assert(s.subrange(p5, p6) =~= d.new_path) by {
        lemma_piece(s, p, r, p5 - p, p6 - p);
        assert(r.subrange(p5 - p, p6 - p) =~= d.new_path);
    }
    assert(s.subrange(p7, n) =~= d.content) by {
        lemma_piece(s, p, r, p7 - p, n - p);
        assert(r.subrange(p7 - p, n - p) =~= d.content);
    }
    if !last {
        assert(s.subrange(n, n + 12)[0] == s[n]);
    } else {
        assert(s.subrange(n, n + 4)[0] == s[n]);
    }
    assert(s[n] == '\n');
    assert forall|j: int| p7 <= j < n implies !#[trigger] occurs_at(s, j, pat) by {
        if occurs_at(s, j, pat) {
            if j + 12 <= n {
                lemma_occurs_in_piece(s, p7, d.content, pat, j);
            } else {
                assert(s.subrange(j, j + 12)[n - j] == s[n]);
            }
        }
    }
    if !last {
        lemma_first_at_exact(s, pat, p7, n);
    } else {
        lemma_first_at_none(s, pat, p7);
        assert forall|j: int| p7 <= j < n implies !#[trigger] occurs_at(s, j, end) by {
            if occurs_at(s, j, end) {
                if j + 4 <= n {
                    lemma_occurs_in_piece(s, p7, d.content, end, j);
                } else if j + 3 == n {
                    assert(s.subrange(j, n) =~= d.content.subrange(
                        d.content.len() - 3,
                        d.content.len() as int,
                    ));
                    assert(s.subrange(j, n) =~= s.subrange(j, j + 4).subrange(0, 3));
                    assert(end.subrange(0, 3) =~= "\n--"@);
                } else {
                    assert(s.subrange(j, j + 4)[n - j] == s[n]);
                }
            }
        }
        lemma_first_at_exact(s, end, p7, n);
    }
}

/// Diffs written one after the other, each as `\n` and its text.
pub open spec fn diffs_text(ds: Seq<DiffView>) -> Seq<char>
    decreases ds.len(),
{
    if ds.len() == 0 {
        Seq::empty()
    } else {
        "\n"@ + diff_record(ds[0]) + diffs_text(ds.drop_first())
    }
}

/// Diffs written one after the other, then `\n--\n` and a rest that holds
/// no diff header, read back as the same list, and reading stops at the
/// `\n--\n`: each diff needs single-word paths and no diff header in its
/// content, and the last one no `\n--\n` in its content and no `\n--` at
/// its end.
pub proof fn law_diffs_read(s: Seq<char>, p: int, ds: Seq<DiffView>)
    requires
        0 <= p,
        ds.len() > 0,
        forall|k: int|
            0 <= k < ds.len() ==> single_word_paths(#[trigger] ds[k]) && !contains_seq(
                ds[k].content,
                "\ndiff --git "@,
            ),
        !contains_seq(ds.last().content, "\n--\n"@),
        !ends_with_dashes(ds.last().content),
        p + diffs_text(ds).len() <= s.len(),
        s.subrange(p, p + diffs_text(ds).len()) == diffs_text(ds),
        occurs_at(s, p + diffs_text(ds).len(), "\n--\n"@),
        forall|j: int| p + diffs_text(ds).len() <= j ==> !#[trigger] occurs_at(s, j, "\ndiff --git "@),
    ensures
        diffs_from(s, p) == (p + diffs_text(ds).len(), ds),
    decreases ds.len(),
{
    reveal_strlit("\n");
    reveal_strlit("\n--\n");
    reveal_strlit("diff --git a/");
    reveal_strlit("\ndiff --git ");
    let d = ds[0];
    let rest = ds.drop_first();
    let r = "\n"@ + diff_record(d);
    let t = diffs_text(rest);
    assert(diffs_text(ds) == r + t);
    lemma_halves(s, p, r, t);
    let q = p + r.len();
    lemma_diff_advances(s, p);
    if ds.len() == 1 {
        assert(t.len() == 0);
        assert(ds.last() == d);
        lemma_diff_reads(s, p, d, true);
        reveal(diff_at);
        reveal_strlit("diff --git ");
        assert(s.subrange(q, q + 4)[1] == s[q + 1]);
        assert(!occurs_at(s, q + 1, "diff --git "@)) by {
            if occurs_at(s, q + 1, "diff --git "@) {
                assert(s.subrange(q + 1, q + 12)[0] == s[q + 1]);
            }
        }
        assert(diff_at(s, q) is Error);
        assert(diffs_from(s, q) == (q, Seq::<DiffView>::empty()));
        assert(ds =~= seq![d]);
        assert(seq![d] + Seq::<DiffView>::empty() =~= seq![d]);
        assert(diffs_from(s, p) == (diffs_from(s, q).0, seq![d] + diffs_from(s, q).1));
    } else {
        let d2 = rest[0];
        let r2 = "\n"@ + diff_record(d2);
        assert(t == r2 + diffs_text(rest.drop_first()));
        assert(s.subrange(q, q + 12) =~= r2.subrange(0, 12)) by {
            lemma_halves(s, q, r2, diffs_text(rest.drop_first()));
            assert(s.subrange(q, q + 12) =~= s.subrange(q, q + r2.len()).subrange(0, 12));
        }
        assert(r2.subrange(0, 12) =~= "\ndiff --git "@);
        assert(occurs_at(s, q, "\ndiff --git "@));
        assert forall|j: int| q + t.len() <= j implies !#[trigger] occurs_at(s, j, "\ndiff --git "@) by {
            assert(p + diffs_text(ds).len() <= j);
        }
        lemma_diff_reads(s, p, d, false);
        assert forall|k: int| 0 <= k < rest.len() implies single_word_paths(#[trigger] rest[k])
            && !contains_seq(rest[k].content, "\ndiff --git "@) by {
            assert(rest[k] == ds[k + 1]);
        }
        assert(rest.last() == ds.last());
        law_diffs_read(s, q, rest);
        assert(ds =~= seq![d] + rest);
        assert(diffs_from(s, p) == (diffs_from(s, q).0, seq![d] + diffs_from(s, q).1));
    }
}

/// Parse subject
pub fn parse_subject(chars: &Vec<char>, pos: usize) -> (r: Result<(usize, String), PatchError>)
    requires
        pos <= chars.len(),
    ensures
        agrees(r, subject_at(chars@, pos as int)),
        r matches Ok((q, _)) ==> pos <= q <= chars.len(),
{
    let p1 = tag_at(chars, pos, "Subject: ")?;
    let (p2, subject) = take_until_at(chars, p1, "\n")?;
    let p3 = newline_at(chars, p2)?;
    Ok((p3, subject))
}

/// Parse file stats
pub fn parse_file_stats(chars: &Vec<char>, pos: usize) -> (r: Result<(usize, FileStat), PatchError>)
    requires
        pos <= chars.len(),
    ensures
        agrees(r, file_stats_at(chars@, pos as int)),
        r matches Ok((q, _)) ==> pos < q <= chars.len(),
{
    reveal(file_stats_at);
    let (p1, _) = take_while1_at(chars, pos, CharClass::Space)?;
    let (p2, path) = take_until_trimmed_at(chars, p1, " | ")?;
    let p3 = tag_at(chars, p2, " | ")?;
    let (p4, _) = take_while1_at(chars, p3, CharClass::Digit)?;
    proof {
        lemma_run_end_bounds(chars@, p3 as int, CharClass::Digit);
    }
    let (p5, _) = take_while1_at(chars, p4, CharClass::Space)?;
    let (p6, _) = take_while1_at(chars, p5, CharClass::PlusMinus)?;
    let p7 = newline_at(chars, p6)?;
    match decimal_at(chars, p3, p4) {
        Some(n) => Ok((p7, FileStat { path, changed_lines: n })),
        None => Err(PatchError::Failure),
    }
}

/// Parse diff
pub fn parse_diff(chars: &Vec<char>, pos: usize) -> (r: Result<(usize, Diff), PatchError>)
    requires
        pos <= chars.len(),
    ensures
        agrees(r, diff_at(chars@, pos as int)),
        r matches Ok((q, _)) ==> pos < q <= chars.len(),
{
    reveal(diff_at);
    let p0 = newline_at(chars, pos)?;
    // diff --git a/foo b/foo
    let p1 = tag_at(chars, p0, "diff --git ")?;
    let p2 = tag_at(chars, p1, "a/")?;
    let (p3, old_path) = take_until_at(chars, p2, " ")?;
    let (p4, _) = take_while1_at(chars, p3, CharClass::Space)?;
    let p5 = tag_at(chars, p4, "b/")?;
    let (p6, new_path) = take_until_at(chars, p5, "\n")?;
    let p7 = newline_at(chars, p6)?;
    // Everything until next diff, patch end, or EOF
    let next_diff = chars_of("\ndiff --git ");
    let mail_end = chars_of("\n--\n");
    proof {
        lemma_first_at_bounds(chars@, next_diff@, p7 as int);
        lemma_first_at_bounds(chars@, mail_end@, p7 as int);
    }
    let (end, content) = match find_from(chars, &next_diff, p7) {
        Some(q) => (q, string_of(chars, p7, q)),
        None => match find_from(chars, &mail_end, p7) {
            Some(q) => (q, string_of(chars, p7, q)),
            None => (p7, string_of(chars, p7, chars.len())),
        },
    };
    Ok((end, Diff { old_path, new_path, content }))
}

/// Parse summary
pub fn parse_summary(chars: &Vec<char>, pos: usize) -> (r: Result<
    (usize, (usize, usize, usize)),
    PatchError,
>)
    requires
        pos <= chars.len(),
    ensures
        agrees(r, summary_at(chars@, pos as int)),
        r matches Ok((q, _)) ==> pos < q <= chars.len(),
{
    reveal(summary_at);
    let (p1, _) = take_while1_at(chars, pos, CharClass::Space)?;
    let p2 = run_end_from(chars, p1, CharClass::Digit);
    if p2 == p1 {
        return Err(PatchError::Error);
    }
    proof {
        lemma_run_end_bounds(chars@, p1 as int, CharClass::Digit);
        assert(all_digits(chars@.subrange(p1 as int, p2 as int)));
    }
    let p3 = tag_either_at(chars, p2, " files changed, ", " file changed, ")?;
    let p4 = run_end_from(chars, p3, CharClass::Digit);
    if p4 == p3 {
        return Err(PatchError::Error);
    }
    proof {
        lemma_run_end_bounds(chars@, p3 as int, CharClass::Digit);
        assert(all_digits(chars@.subrange(p3 as int, p4 as int)));
    }
    let p5 = tag_either_at(chars, p4, " insertions", " insertion")?;
    let p6 = match tag_at(chars, p5, "(+)") {
        Ok(q) => q,
        Err(_) => p5,
    };
    // Optionally parse deletions
    let (p7, deletions) = match parse_labelled_count(chars, p6, " deletions(-)", " deletion(-)") {
        Ok((q, digits)) => (q, Some(digits)),
        Err(_) => (p6, None),
    };
    let (p8, _) = take_until_at(chars, p7, "\n")?;
    let p9 = newline_at(chars, p8)?;
    let files = match decimal_at(chars, p1, p2) {
        Some(n) => n,
        None => return Err(PatchError::Failure),
    };
    let insertions = match decimal_at(chars, p3, p4) {
        Some(n) => n,
        None => return Err(PatchError::Failure),
    };
    let del = match deletions {
        Some((from, to)) => match decimal_at(chars, from, to) {
            Some(n) => n,
            None => return Err(PatchError::Failure),
        },
        None => 0,
    };
    Ok((p9, (files, insertions, del)))
}

/// Parse stats
pub fn parse_stats(chars: &Vec<char>, pos: usize) -> (r: Result<
    (usize, (Vec<FileStat>, usize, usize, usize)),
    PatchError,
>)
    requires
        pos <= chars.len(),
    ensures
        match r {
            Ok((q, (stats, files, ins, del))) => stats_at(chars@, pos as int) == Step::Done(
                q as int,
                (views(stats@), (files, ins, del)),
            ),
            Err(PatchError::Error) => stats_at(chars@, pos as int) is Error,
            Err(PatchError::Failure) => stats_at(chars@, pos as int) is Failure,
        },
        r matches Ok((q, _)) ==> pos < q <= chars.len(),
{
    let mut stats: Vec<FileStat> = Vec::new();
    let mut i = pos;
    loop
        invariant
            pos <= i <= chars.len(),
            stats_at(chars@, pos as int) == prepend_stats(views(stats@), stats_at(chars@, i as int)),
        decreases chars.len() - i,
    {
        match parse_summary(chars, i) {
            Ok((q, (files, ins, del))) => {
                assert(views(stats@) + Seq::<FileStatView>::empty() =~= views(stats@));
                return Ok((q, (stats, files, ins, del)));
            },
            Err(PatchError::Failure) => {
                return Err(PatchError::Failure);
            },
            Err(PatchError::Error) => {
                let (q, fs) = parse_file_stats(chars, i)?;
                if q == i {
                    return Err(PatchError::Error);
                }
                let ghost before = views(stats@);
                stats.push(fs);
                proof {
                    assert(views(stats@) =~= before.push(fs@));
                    assert forall|more: Seq<FileStatView>| #![auto]
                        before + (seq![fs@] + more) =~= views(stats@) + more by {}
                }
                i = q;
            },
        }
    }
}

/// Reads diffs one after the other while they read.
pub fn parse_diffs(chars: &Vec<char>, pos: usize) -> (r: (usize, Vec<Diff>))
    requires
        pos <= chars.len(),
    ensures
        diffs_from(chars@, pos as int) == (r.0 as int, views(r.1@)),
        pos <= r.0 <= chars.len(),
{
    let mut diffs: Vec<Diff> = Vec::new();
    let mut i = pos;
    loop
        invariant_except_break
            pos <= i <= chars.len(),
            diffs_from(chars@, pos as int) == (
                diffs_from(chars@, i as int).0,
                views(diffs@) + diffs_from(chars@, i as int).1,
            ),
        ensures
            pos <= i <= chars.len(),
            diffs_from(chars@, pos as int) == (i as int, views(diffs@)),
        decreases chars.len() - i,
    {
        match parse_diff(chars, i) {
            Ok((q, diff)) => {
                let ghost before = views(diffs@);
                let ghost d = diff@;
                diffs.push(diff);
                assert(views(diffs@) =~= before.push(d));
                assert(before + (seq![d] + diffs_from(chars@, q as int).1) =~= views(diffs@)
                    + diffs_from(chars@, q as int).1);
                i = q;
            },
            Err(_) => {
                assert(views(diffs@) + Seq::<DiffView>::empty() =~= views(diffs@));
                break ;
            },
        }
    }
    (i, diffs)
}

/// Parse patch
pub fn parse_patch<'a>(input: &'a str) -> (r: Result<(&'a str, PatchFile), PatchError>)
    ensures
        read_agrees(input@, r, patch_at(input@, 0)),
{
    let chars = chars_of(input);
    let (p1, commit_hash) = parse_commit_hash(&chars, 0)?;
    let (p2, (author, email)) = parse_author(&chars, p1)?;
    let (p3, date) = parse_date(&chars, p2)?;
    let (p4, subject) = parse_subject(&chars, p3)?;
    let (p5, _) = take_until_at(&chars, p4, "---\n")?;
    let p6 = tag_at(&chars, p5, "---\n")?;
    let (p7, (file_stats, _, insertions, deletions)) = parse_stats(&chars, p6)?;
    let (end, diffs) = parse_diffs(&chars, p7);
    let rest = input.substring_char(end, chars.len());
    Ok(
        (
            rest,
            PatchFile {
                commit_hash,
                author,
                email,
                date,
                subject,
                file_stats,
                insertions,
                deletions,
                diffs,
            },
        ),
    )
}

} // verus!
