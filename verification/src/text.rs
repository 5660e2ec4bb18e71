//! Character-level reading of patch text.
//!
//! A reader works on the text as a sequence of characters and a cursor into it.
//! Every step either lands at a new cursor (with a value), or stops with a
//! recoverable [`PatchError::Error`] (the next alternative may be tried) or with
//! a [`PatchError::Failure`] (no alternative is tried any more).
use vstd::prelude::*;

verus! {

/// Why a reading step did not succeed.
#[derive(Debug, Clone, Copy, PartialEq, Eq, Structural)]
pub enum PatchError {
    /// The text does not have the expected shape here; an enclosing
    /// alternative or repetition may go on.
    Error,
    /// The text had the shape but its content is unusable (a count that does
    /// not fit in a `usize`); every enclosing step stops.
    Failure,
}

/// The mathematical outcome of a reading step started at some cursor.
pub enum Step<T> {
    /// The step read up to the given cursor and produced a value.
    Done(int, T),
    /// Recoverable mismatch.
    Error,
    /// Unrecoverable failure.
    Failure,
}

impl<T> Step<T> {
    /// Runs `f` after a successful step; errors and failures pass through.
    pub open spec fn and_then<U>(self, f: spec_fn(int, T) -> Step<U>) -> Step<U> {
        match self {
            Step::Done(p, v) => f(p, v),
            Step::Error => Step::Error,
            Step::Failure => Step::Failure,
        }
    }

    /// Tries `other` where this step ends in a recoverable error.
    pub open spec fn or_else(self, other: Step<T>) -> Step<T> {
        match self {
            Step::Error => other,
            _ => self,
        }
    }

    /// `Error` becomes "nothing read, no value"; a failure still stops.
    pub open spec fn optional(self, p: int) -> Step<Option<T>> {
        match self {
            Step::Done(q, v) => Step::Done(q, Some(v)),
            Step::Error => Step::Done(p, None),
            Step::Failure => Step::Failure,
        }
    }
}

/// An executable step result agrees with the mathematical one.
pub open spec fn agrees<T: View>(r: Result<(usize, T), PatchError>, o: Step<T::V>) -> bool {
    match r {
        Ok((n, v)) => o == Step::Done(n as int, v@),
        Err(PatchError::Error) => o is Error,
        Err(PatchError::Failure) => o is Failure,
    }
}

/// An executable step without a value agrees with the mathematical one.
pub open spec fn lands(r: Result<usize, PatchError>, o: Step<()>) -> bool {
    match r {
        Ok(n) => o == Step::Done(n as int, ()),
        Err(PatchError::Error) => o is Error,
        Err(PatchError::Failure) => o is Failure,
    }
}

/// The cursor of a successful step lies between `p` and the end of `s`.
pub open spec fn within<T>(o: Step<T>, s: Seq<char>, p: int) -> bool {
    o matches Step::Done(q, _) ==> p <= q <= s.len()
}

/// The cursor of a successful step lies strictly after `p` and not past the end of `s`.
pub open spec fn advances<T>(o: Step<T>, s: Seq<char>, p: int) -> bool {
    o matches Step::Done(q, _) ==> p < q <= s.len()
}

/// Classes of characters that runs are made of.
#[derive(Debug, Clone, Copy, PartialEq, Eq, Structural)]
pub enum CharClass {
    /// A space or a tab.
    Space,
    /// An ASCII decimal digit.
    Digit,
    /// An ASCII hexadecimal digit.
    Hex,
    /// `+` or `-`.
    PlusMinus,
    /// Anything but `\r` and `\n`.
    NotLineBreak,
}

pub open spec fn is_digit_char(c: char) -> bool {
    '0' <= c && c <= '9'
}

pub open spec fn is_hex_char(c: char) -> bool {
    ||| is_digit_char(c)
    ||| ('a' <= c && c <= 'f')
    ||| ('A' <= c && c <= 'F')
}

pub open spec fn in_class(k: CharClass, c: char) -> bool {
    match k {
        CharClass::Space => c == ' ' || c == '\t',
        CharClass::Digit => is_digit_char(c),
        CharClass::Hex => is_hex_char(c),
        CharClass::PlusMinus => c == '+' || c == '-',
        CharClass::NotLineBreak => c != '\r' && c != '\n',
    }
}

/// Check if a character is an ASCII hexadecimal digit.
pub fn is_hex(c: char) -> (b: bool)
    ensures
        b == is_hex_char(c),
{
    ('0' <= c && c <= '9') || ('a' <= c && c <= 'f') || ('A' <= c && c <= 'F')
}

/// Whether `c` belongs to the class `k`.
pub fn class_has(k: CharClass, c: char) -> (b: bool)
    ensures
        b == in_class(k, c),
{
    match k {
        CharClass::Space => c == ' ' || c == '\t',
        CharClass::Digit => '0' <= c && c <= '9',
        CharClass::Hex => is_hex(c),
        CharClass::PlusMinus => c == '+' || c == '-',
        CharClass::NotLineBreak => c != '\r' && c != '\n',
    }
}

/// `t` occurs in `s` starting at `p`.
pub open spec fn occurs_at(s: Seq<char>, p: int, t: Seq<char>) -> bool {
    &&& 0 <= p
    &&& p + t.len() <= s.len()
    &&& s.subrange(p, p + t.len()) == t
}

/// The first position at or after `p` where `t` occurs in `s`.
pub open spec fn first_at(s: Seq<char>, t: Seq<char>, p: int) -> Option<int>
    decreases s.len() + 1 - p,
{
    if p < 0 || p + t.len() > s.len() {
        None
    } else if occurs_at(s, p, t) {
        Some(p)
    } else {
        first_at(s, t, p + 1)
    }
}

/// `t` occurs somewhere in `s`.
pub open spec fn contains_seq(s: Seq<char>, t: Seq<char>) -> bool {
    exists|i: int| occurs_at(s, i, t)
}

/// The end of the longest run of class `k` that starts at `p`.
pub open spec fn run_end(s: Seq<char>, p: int, k: CharClass) -> int
    decreases s.len() - p,
{
    if 0 <= p < s.len() && in_class(k, s[p]) {
        run_end(s, p + 1, k)
    } else {
        p
    }
}

/// The exact text `t`.
pub open spec fn tag(s: Seq<char>, p: int, t: Seq<char>) -> Step<()> {
    if occurs_at(s, p, t) {
        Step::Done(p + t.len(), ())
    } else {
        Step::Error
    }
}

/// One given character.
pub open spec fn one_char(s: Seq<char>, p: int, c: char) -> Step<()> {
    if 0 <= p < s.len() && s[p] == c {
        Step::Done(p + 1, ())
    } else {
        Step::Error
    }
}

/// A `\n`.
pub open spec fn newline(s: Seq<char>, p: int) -> Step<()> {
    one_char(s, p, '\n')
}

/// Everything before the first occurrence of `t`; an error when `t` does not occur.
pub open spec fn take_until(s: Seq<char>, p: int, t: Seq<char>) -> Step<Seq<char>> {
    match first_at(s, t, p) {
        Some(i) => Step::Done(i, s.subrange(p, i)),
        None => Step::Error,
    }
}


/// `v` without its trailing spaces.
pub open spec fn trim_spaces_end(v: Seq<char>) -> Seq<char>
    decreases v.len(),
{
    if v.len() > 0 && v.last() == ' ' {
        trim_spaces_end(v.drop_last())
    } else {
        v
    }
}

/// Everything before the first occurrence of `t`, without trailing spaces.
pub open spec fn take_until_trimmed(s: Seq<char>, p: int, t: Seq<char>) -> Step<Seq<char>> {
    take_until(s, p, t).and_then(|q: int, v: Seq<char>| Step::Done(q, trim_spaces_end(v)))
}

/// The longest run of class `k` (possibly empty).
pub open spec fn take_while(s: Seq<char>, p: int, k: CharClass) -> Step<Seq<char>> {
    Step::Done(run_end(s, p, k), s.subrange(p, run_end(s, p, k)))
}

/// The longest run of class `k`, which must not be empty.
pub open spec fn take_while1(s: Seq<char>, p: int, k: CharClass) -> Step<Seq<char>> {
    if run_end(s, p, k) > p {
        Step::Done(run_end(s, p, k), s.subrange(p, run_end(s, p, k)))
    } else {
        Step::Error
    }
}

/// A line ending: `\n` or `\r\n`.
pub open spec fn line_ending(s: Seq<char>, p: int) -> Step<()> {
    if 0 <= p < s.len() && s[p] == '\n' {
        Step::Done(p + 1, ())
    } else if 0 <= p && p + 1 < s.len() && s[p] == '\r' && s[p + 1] == '\n' {
        Step::Done(p + 2, ())
    } else {
        Step::Error
    }
}

/// The rest of the line before its ending; a lone `\r` (one not followed by
/// `\n`) is an error.
pub open spec fn not_line_ending(s: Seq<char>, p: int) -> Step<Seq<char>> {
    let e = run_end(s, p, CharClass::NotLineBreak);
    if e < s.len() && s[e] == '\r' && !(e + 1 < s.len() && s[e + 1] == '\n') {
        Step::Error
    } else {
        Step::Done(e, s.subrange(p, e))
    }
}

/// The value of a decimal digit.
pub open spec fn digit_value(c: char) -> int {
    c as int - '0' as int
}

/// The number that a string of decimal digits denotes.
pub open spec fn decimal_value(d: Seq<char>) -> int
    decreases d.len(),
{
    if d.len() == 0 {
        0
    } else {
        decimal_value(d.drop_last()) * 10 + digit_value(d.last())
    }
}

/// The number that a string of decimal digits denotes, where it fits in a `usize`.
pub open spec fn decimal_usize(d: Seq<char>) -> Option<usize> {
    if decimal_value(d) <= usize::MAX {
        Some(decimal_value(d) as usize)
    } else {
        None
    }
}

pub open spec fn all_digits(d: Seq<char>) -> bool {
    forall|i: int| 0 <= i < d.len() ==> is_digit_char(#[trigger] d[i])
}

pub proof fn lemma_run_end_bounds(s: Seq<char>, p: int, k: CharClass)
    requires
        0 <= p <= s.len(),
    ensures
        p <= run_end(s, p, k) <= s.len(),
        forall|i: int| p <= i < run_end(s, p, k) ==> in_class(k, #[trigger] s[i]),
        run_end(s, p, k) < s.len() ==> !in_class(k, s[run_end(s, p, k)]),
    decreases s.len() - p,
{
    if p < s.len() && in_class(k, s[p]) {
        lemma_run_end_bounds(s, p + 1, k);
    }
}

pub proof fn lemma_first_at_bounds(s: Seq<char>, t: Seq<char>, p: int)
    requires
        0 <= p,
    ensures
        first_at(s, t, p) matches Some(i) ==> p <= i && i + t.len() <= s.len() && occurs_at(s, i, t),
        first_at(s, t, p) matches Some(i) ==> forall|j: int| p <= j < i ==> !occurs_at(s, j, t),
        first_at(s, t, p) is None ==> forall|j: int| p <= j ==> !occurs_at(s, j, t),
    decreases s.len() + 1 - p,
{
    if p + t.len() > s.len() {
    } else if occurs_at(s, p, t) {
    } else {
        lemma_first_at_bounds(s, t, p + 1);
    }
}

/// The views of the items of a sequence.
pub open spec fn views<T: View>(v: Seq<T>) -> Seq<T::V> {
    v.map_values(|x: T| x@)
}

/// An executable result that also hands back the unread rest of the text
/// agrees with the mathematical outcome of reading `s`.
pub open spec fn read_agrees<T: View>(s: Seq<char>, r: Result<(&str, T), PatchError>, o: Step<T::V>) -> bool {
    match r {
        Ok((rest, v)) => o matches Step::Done(q, w) && rest@ == s.skip(q) && v@ == w,
        Err(PatchError::Error) => o is Error,
        Err(PatchError::Failure) => o is Failure,
    }
}

pub broadcast proof fn lemma_tag_within(s: Seq<char>, p: int, t: Seq<char>)
    ensures
        within(#[trigger] tag(s, p, t), s, p),
{
}

pub broadcast proof fn lemma_one_char_advances(s: Seq<char>, p: int, c: char)
    ensures
        advances(#[trigger] one_char(s, p, c), s, p),
{
}

pub broadcast proof fn lemma_line_ending_advances(s: Seq<char>, p: int)
    ensures
        advances(#[trigger] line_ending(s, p), s, p),
{
}

pub broadcast proof fn lemma_take_until_within(s: Seq<char>, p: int, t: Seq<char>)
    ensures
        within(#[trigger] take_until(s, p, t), s, p),
{
    if p >= 0 {
        lemma_first_at_bounds(s, t, p);
    }
}

pub broadcast proof fn lemma_take_while_within(s: Seq<char>, p: int, k: CharClass)
    ensures
        0 <= p <= s.len() ==> within(#[trigger] take_while(s, p, k), s, p),
{
    if 0 <= p <= s.len() {
        lemma_run_end_bounds(s, p, k);
    }
}

pub broadcast proof fn lemma_take_while1_advances(s: Seq<char>, p: int, k: CharClass)
    ensures
        advances(#[trigger] take_while1(s, p, k), s, p),
{
    if 0 <= p <= s.len() {
        lemma_run_end_bounds(s, p, k);
    }
}

pub broadcast proof fn lemma_not_line_ending_within(s: Seq<char>, p: int)
    ensures
        0 <= p <= s.len() ==> within(#[trigger] not_line_ending(s, p), s, p),
{
    if 0 <= p <= s.len() {
        lemma_run_end_bounds(s, p, CharClass::NotLineBreak);
    }
}

pub broadcast group group_step_bounds {
    lemma_tag_within,
    lemma_one_char_advances,
    lemma_line_ending_advances,
    lemma_take_until_within,
    lemma_take_while_within,
    lemma_take_while1_advances,
    lemma_not_line_ending_within,
}


/// A step's outcome read on a suffix, moved back to positions in the whole text.
pub open spec fn shift<T>(o: Step<T>, k: int) -> Step<T> {
    match o {
        Step::Done(q, v) => Step::Done(q + k, v),
        Step::Error => Step::Error,
        Step::Failure => Step::Failure,
    }
}

pub proof fn lemma_occurs_shift(s: Seq<char>, k: int, p: int, x: Seq<char>)
    requires
        0 <= k <= s.len(),
        0 <= p,
    ensures
        occurs_at(s.skip(k), p, x) == occurs_at(s, p + k, x),
{
    let t = s.skip(k);
    if p + x.len() <= t.len() {
        assert(t.subrange(p, p + x.len()) =~= s.subrange(p + k, p + k + x.len()));
    }
}

pub proof fn lemma_first_at_shift(s: Seq<char>, k: int, p: int, x: Seq<char>)
    requires
        0 <= k <= s.len(),
        0 <= p,
    ensures
        first_at(s, x, p + k) == match first_at(s.skip(k), x, p) {
            Some(i) => Some(i + k),
            None => None::<int>,
        },
    decreases s.len() + 1 - p,
{
    lemma_occurs_shift(s, k, p, x);
    if p + x.len() <= s.skip(k).len() && !occurs_at(s.skip(k), p, x) {
        lemma_first_at_shift(s, k, p + 1, x);
    }
}

pub proof fn lemma_run_end_shift(s: Seq<char>, k: int, p: int, c: CharClass)
    requires
        0 <= k <= s.len(),
        0 <= p,
    ensures
        run_end(s, p + k, c) == run_end(s.skip(k), p, c) + k,
    decreases s.len() - p,
{
    if p < s.skip(k).len() && in_class(c, s.skip(k)[p]) {
        lemma_run_end_shift(s, k, p + 1, c);
    }
}

pub broadcast proof fn lemma_tag_shift(s: Seq<char>, k: int, p: int, x: Seq<char>)
    requires
        0 <= k <= s.len(),
        0 <= p,
    ensures
        tag(s, p + k, x) == shift(#[trigger] tag(s.skip(k), p, x), k),
{
    lemma_occurs_shift(s, k, p, x);
}

pub broadcast proof fn lemma_one_char_shift(s: Seq<char>, k: int, p: int, c: char)
    requires
        0 <= k <= s.len(),
        0 <= p,
    ensures
        one_char(s, p + k, c) == shift(#[trigger] one_char(s.skip(k), p, c), k),
{
}

pub broadcast proof fn lemma_take_until_shift(s: Seq<char>, k: int, p: int, x: Seq<char>)
    requires
        0 <= k <= s.len(),
        0 <= p,
    ensures
        take_until(s, p + k, x) == shift(#[trigger] take_until(s.skip(k), p, x), k),
{
    lemma_first_at_shift(s, k, p, x);
    lemma_first_at_bounds(s.skip(k), x, p);
    if let Some(i) = first_at(s.skip(k), x, p) {
        assert(s.subrange(p + k, i + k) =~= s.skip(k).subrange(p, i));
    }
}

pub broadcast proof fn lemma_take_while_shift(s: Seq<char>, k: int, p: int, c: CharClass)
    requires
        0 <= k <= s.len(),
        0 <= p <= s.len() - k,
    ensures
        take_while(s, p + k, c) == shift(#[trigger] take_while(s.skip(k), p, c), k),
{
    lemma_run_end_shift(s, k, p, c);
    lemma_run_end_bounds(s.skip(k), p, c);
    let e = run_end(s.skip(k), p, c);
    assert(s.subrange(p + k, e + k) =~= s.skip(k).subrange(p, e));
}

pub broadcast proof fn lemma_take_while1_shift(s: Seq<char>, k: int, p: int, c: CharClass)
    requires
        0 <= k <= s.len(),
        0 <= p <= s.len() - k,
    ensures
        take_while1(s, p + k, c) == shift(#[trigger] take_while1(s.skip(k), p, c), k),
{
    lemma_run_end_shift(s, k, p, c);
    lemma_run_end_bounds(s.skip(k), p, c);
    let e = run_end(s.skip(k), p, c);
    assert(s.subrange(p + k, e + k) =~= s.skip(k).subrange(p, e));
}

pub broadcast group group_shift {
    lemma_tag_shift,
    lemma_one_char_shift,
    lemma_take_until_shift,
    lemma_take_while_shift,
    lemma_take_while1_shift,
}


/// What `take_until` hands back holds no character of a one-character pattern.
pub proof fn lemma_take_until_excludes(s: Seq<char>, p: int, c: char)
    ensures
        take_until(s, p, seq![c]) matches Step::Done(i, v) ==> forall|j: int|
            0 <= j < v.len() ==> #[trigger] v[j] != c,
{
    if p >= 0 {
        lemma_first_at_bounds(s, seq![c], p);
        if let Step::Done(i, v) = take_until(s, p, seq![c]) {
            assert forall|j: int| 0 <= j < v.len() implies #[trigger] v[j] != c by {
                if v[j] == c {
                    assert(s.subrange(p + j, p + j + 1) =~= seq![c]);
                    assert(occurs_at(s, p + j, seq![c]));
                }
            }
        }
    }
}


/// A run that ends where its class does is the longest one.
pub proof fn lemma_run_end_exact(s: Seq<char>, a: int, b: int, k: CharClass)
    requires
        0 <= a <= b <= s.len(),
        forall|i: int| a <= i < b ==> in_class(k, #[trigger] s[i]),
        b == s.len() || !in_class(k, s[b]),
    ensures
        run_end(s, a, k) == b,
    decreases b - a,
{
    if a < b {
        lemma_run_end_exact(s, a + 1, b, k);
    }
}

/// A pattern found at `b`, and at no earlier position from `a` on, is found first at `b`.
pub proof fn lemma_first_at_exact(s: Seq<char>, t: Seq<char>, a: int, b: int)
    requires
        0 <= a <= b,
        occurs_at(s, b, t),
        forall|i: int| a <= i < b ==> !#[trigger] occurs_at(s, i, t),
    ensures
        first_at(s, t, a) == Some(b),
    decreases b - a,
{
    if a < b {
        assert(!occurs_at(s, a, t));
        lemma_first_at_exact(s, t, a + 1, b);
    }
}



/// The two halves of a text known as a whole.
pub proof fn lemma_halves(s: Seq<char>, p: int, h: Seq<char>, t: Seq<char>)
    requires
        0 <= p,
        p + (h + t).len() <= s.len(),
        s.subrange(p, p + (h + t).len()) == h + t,
    ensures
        s.subrange(p, p + h.len()) == h,
        s.subrange(p + h.len(), p + h.len() + t.len()) == t,
{
    assert(s.subrange(p, p + h.len()) =~= (h + t).subrange(0, h.len() as int));
    assert(s.subrange(p + h.len(), p + h.len() + t.len()) =~= (h + t).subrange(
        h.len() as int,
        (h + t).len() as int,
    ));
}

/// A piece of a text that is known as a whole.
pub proof fn lemma_piece(s: Seq<char>, p: int, c: Seq<char>, a: int, b: int)
    requires
        0 <= p,
        p + c.len() <= s.len(),
        s.subrange(p, p + c.len()) == c,
        0 <= a <= b <= c.len(),
    ensures
        s.subrange(p + a, p + b) == c.subrange(a, b),
        forall|j: int| p + a <= j < p + b ==> #[trigger] s[j] == c[j - p],
{
    assert(s.subrange(p + a, p + b) =~= c.subrange(a, b));
    assert forall|j: int| p + a <= j < p + b implies #[trigger] s[j] == c[j - p] by {
        assert(s.subrange(p, p + c.len())[j - p] == s[j]);
    }
}

/// A pattern that occurs nowhere from `a` on is not found from `a` on.
pub proof fn lemma_first_at_none(s: Seq<char>, t: Seq<char>, a: int)
    requires
        0 <= a,
        forall|i: int| a <= i ==> !#[trigger] occurs_at(s, i, t),
    ensures
        first_at(s, t, a) is None,
    decreases s.len() + 1 - a,
{
    if a + t.len() <= s.len() {
        assert(!occurs_at(s, a, t));
        lemma_first_at_none(s, t, a + 1);
    }
}

/// What `take_until` hands back holds no occurrence of its (non-empty) pattern.
pub proof fn lemma_take_until_clean(s: Seq<char>, p: int, t: Seq<char>)
    requires
        t.len() > 0,
    ensures
        take_until(s, p, t) matches Step::Done(i, v) ==> !contains_seq(v, t),
{
    if p >= 0 {
        lemma_first_at_bounds(s, t, p);
        if let Step::Done(i, v) = take_until(s, p, t) {
            assert forall|j: int| !occurs_at(v, j, t) by {
                if occurs_at(v, j, t) {
                    assert(s.subrange(p + j, p + j + t.len()) =~= v.subrange(j, j + t.len()));
                    assert(occurs_at(s, p + j, t));
                    assert(p <= p + j < i);
                }
            }
        }
    }
}

/// A one-character pattern occurs exactly where that character stands.
pub proof fn lemma_occurs_one(s: Seq<char>, i: int, c: char)
    ensures
        occurs_at(s, i, seq![c]) <==> (0 <= i < s.len() && s[i] == c),
{
    if 0 <= i < s.len() && s[i] == c {
        assert(s.subrange(i, i + 1) =~= seq![c]);
    }
    if occurs_at(s, i, seq![c]) {
        assert(s.subrange(i, i + 1)[0] == s[i]);
    }
}

/// The characters of a string.
pub fn chars_of(s: &str) -> (v: Vec<char>)
    ensures
        v@ == s@,
{
    let mut v: Vec<char> = Vec::new();
    for c in it: s.chars()
        invariant
            v@ == it.seq().take(it.index()),
    {
        v.push(c);
    }
    v
}

/// Appends one character to a string: calls `String::push`, which std
/// documents as appending `c` to the end; that is all this claims.
#[verifier::external_body]
fn push_char(s: &mut String, c: char)
    ensures
        final(s)@ == old(s)@.push(c),
{
    s.push(c);
}

/// The characters in `from..to` as an owned string.
pub fn string_of(chars: &Vec<char>, from: usize, to: usize) -> (r: String)
    requires
        from <= to <= chars.len(),
    ensures
        r@ == chars@.subrange(from as int, to as int),
{
    let mut r = String::new();
    let mut i = from;
    while i < to
        invariant
            from <= i <= to <= chars.len(),
            r@ == chars@.subrange(from as int, i as int),
        decreases to - i,
    {
        push_char(&mut r, chars[i]);
        assert(chars@.subrange(from as int, i + 1) == chars@.subrange(from as int, i as int).push(
            chars@[i as int],
        ));
        i += 1;
    }
    r
}

/// Whether `t` occurs in `chars` at `pos`.
pub fn matches_at(chars: &Vec<char>, pos: usize, t: &Vec<char>) -> (b: bool)
    ensures
        b == occurs_at(chars@, pos as int, t@),
{
    if t.len() > chars.len() || pos > chars.len() - t.len() {
        return false;
    }
    let mut i: usize = 0;
    while i < t.len()
        invariant
            0 <= i <= t.len(),
            pos + t.len() <= chars.len(),
            forall|j: int| 0 <= j < i ==> chars@[pos + j] == t@[j],
        decreases t.len() - i,
    {
        if chars[pos + i] != t[i] {
            assert(chars@.subrange(pos as int, pos + t.len())[i as int] != t@[i as int]);
            return false;
        }
        i += 1;
    }
    assert(chars@.subrange(pos as int, pos + t.len()) =~= t@);
    true
}

/// The first position at or after `pos` where `t` occurs.
pub fn find_from(chars: &Vec<char>, t: &Vec<char>, pos: usize) -> (r: Option<usize>)
    requires
        pos <= chars.len(),
    ensures
        match r {
            Some(i) => first_at(chars@, t@, pos as int) == Some(i as int),
            None => first_at(chars@, t@, pos as int) is None,
        },
{
    if t.len() > chars.len() {
        return None;
    }
    let mut i = pos;
    while i <= chars.len() - t.len()
        invariant
            pos <= i <= chars.len(),
            t.len() <= chars.len(),
            first_at(chars@, t@, pos as int) == first_at(chars@, t@, i as int),
        decreases chars.len() - i,
    {
        if matches_at(chars, i, t) {
            return Some(i);
        }
        if t.len() == 0 {
            assert(chars@.subrange(i as int, i as int) =~= t@);
        }
        i += 1;
    }
    None
}

/// The end of the longest run of class `k` that starts at `pos`.
pub fn run_end_from(chars: &Vec<char>, pos: usize, k: CharClass) -> (e: usize)
    requires
        pos <= chars.len(),
    ensures
        e == run_end(chars@, pos as int, k),
        pos <= e <= chars.len(),
{
    let mut i = pos;
    while i < chars.len() && class_has(k, chars[i])
        invariant
            pos <= i <= chars.len(),
            run_end(chars@, pos as int, k) == run_end(chars@, i as int, k),
        decreases chars.len() - i,
    {
        i += 1;
    }
    i
}

/// Reads the exact text `t`.
pub fn tag_at(chars: &Vec<char>, pos: usize, t: &str) -> (r: Result<usize, PatchError>)
    requires
        pos <= chars.len(),
    ensures
        lands(r, tag(chars@, pos as int, t@)),
        r matches Ok(q) ==> pos <= q <= chars.len(),
{
    let tv = chars_of(t);
    if matches_at(chars, pos, &tv) {
        Ok(pos + tv.len())
    } else {
        Err(PatchError::Error)
    }
}


/// Reads the exact text `a`, or else the exact text `b`.
pub fn tag_either_at(chars: &Vec<char>, pos: usize, a: &str, b: &str) -> (r: Result<usize, PatchError>)
    requires
        pos <= chars.len(),
    ensures
        lands(r, tag(chars@, pos as int, a@).or_else(tag(chars@, pos as int, b@))),
        r matches Ok(q) ==> pos <= q <= chars.len(),
{
    match tag_at(chars, pos, a) {
        Ok(q) => Ok(q),
        Err(_) => tag_at(chars, pos, b),
    }
}

/// Reads one given character.
pub fn char_at(chars: &Vec<char>, pos: usize, c: char) -> (r: Result<usize, PatchError>)
    requires
        pos <= chars.len(),
    ensures
        lands(r, one_char(chars@, pos as int, c)),
        r matches Ok(q) ==> q == pos + 1 && q <= chars.len(),
{
    if pos < chars.len() && chars[pos] == c {
        Ok(pos + 1)
    } else {
        Err(PatchError::Error)
    }
}

/// Reads a `\n`.
pub fn newline_at(chars: &Vec<char>, pos: usize) -> (r: Result<usize, PatchError>)
    requires
        pos <= chars.len(),
    ensures
        lands(r, newline(chars@, pos as int)),
        r matches Ok(q) ==> q == pos + 1 && q <= chars.len(),
{
    char_at(chars, pos, '\n')
}

/// Reads everything before the first occurrence of `t`.
pub fn take_until_at(chars: &Vec<char>, pos: usize, t: &str) -> (r: Result<(usize, String), PatchError>)
    requires
        pos <= chars.len(),
    ensures
        agrees(r, take_until(chars@, pos as int, t@)),
        r matches Ok((q, _)) ==> pos <= q <= chars.len(),
{
    let tv = chars_of(t);
    proof {
        lemma_first_at_bounds(chars@, tv@, pos as int);
    }
    match find_from(chars, &tv, pos) {
        Some(i) => Ok((i, string_of(chars, pos, i))),
        None => Err(PatchError::Error),
    }
}


/// Reads everything before the first occurrence of `t`; the text handed back
/// has its trailing spaces removed.
pub fn take_until_trimmed_at(chars: &Vec<char>, pos: usize, t: &str) -> (r: Result<(usize, String), PatchError>)
    requires
        pos <= chars.len(),
    ensures
        agrees(r, take_until_trimmed(chars@, pos as int, t@)),
        r matches Ok((q, _)) ==> pos <= q <= chars.len(),
{
    let tv = chars_of(t);
    proof {
        lemma_first_at_bounds(chars@, tv@, pos as int);
    }
    let q = match find_from(chars, &tv, pos) {
        Some(i) => i,
        None => return Err(PatchError::Error),
    };
    let mut e = q;
    while e > pos && chars[e - 1] == ' '
        invariant
            pos <= e <= q <= chars.len(),
            trim_spaces_end(chars@.subrange(pos as int, q as int)) == trim_spaces_end(
                chars@.subrange(pos as int, e as int),
            ),
        decreases e,
    {
        assert(chars@.subrange(pos as int, e as int).drop_last() =~= chars@.subrange(
            pos as int,
            e - 1,
        ));
        e -= 1;
    }
    Ok((q, string_of(chars, pos, e)))
}

/// Reads the longest run of class `k`, possibly empty.
pub fn take_while_at(chars: &Vec<char>, pos: usize, k: CharClass) -> (r: Result<(usize, String), PatchError>)
    requires
        pos <= chars.len(),
    ensures
        agrees(r, take_while(chars@, pos as int, k)),
        r matches Ok((q, _)) ==> pos <= q <= chars.len(),
{
    let e = run_end_from(chars, pos, k);
    Ok((e, string_of(chars, pos, e)))
}

/// Reads the longest run of class `k`, which must not be empty.
pub fn take_while1_at(chars: &Vec<char>, pos: usize, k: CharClass) -> (r: Result<(usize, String), PatchError>)
    requires
        pos <= chars.len(),
    ensures
        agrees(r, take_while1(chars@, pos as int, k)),
        r matches Ok((q, _)) ==> pos < q <= chars.len(),
{
    let e = run_end_from(chars, pos, k);
    if e > pos {
        Ok((e, string_of(chars, pos, e)))
    } else {
        Err(PatchError::Error)
    }
}

/// Reads a line ending: `\n` or `\r\n`.
pub fn line_ending_at(chars: &Vec<char>, pos: usize) -> (r: Result<usize, PatchError>)
    requires
        pos <= chars.len(),
    ensures
        lands(r, line_ending(chars@, pos as int)),
        r matches Ok(q) ==> pos < q <= chars.len(),
{
    if pos < chars.len() && chars[pos] == '\n' {
        Ok(pos + 1)
    } else if pos < chars.len() && pos + 1 < chars.len() && chars[pos] == '\r' && chars[pos + 1]
        == '\n' {
        Ok(pos + 2)
    } else {
        Err(PatchError::Error)
    }
}

/// Reads the rest of the line before its ending.
pub fn not_line_ending_at(chars: &Vec<char>, pos: usize) -> (r: Result<(usize, String), PatchError>)
    requires
        pos <= chars.len(),
    ensures
        agrees(r, not_line_ending(chars@, pos as int)),
        r matches Ok((q, _)) ==> pos <= q <= chars.len(),
{
    let e = run_end_from(chars, pos, CharClass::NotLineBreak);
    if e < chars.len() && chars[e] == '\r' && !(e + 1 < chars.len() && chars[e + 1] == '\n') {
        Err(PatchError::Error)
    } else {
        Ok((e, string_of(chars, pos, e)))
    }
}

proof fn lemma_decimal_nonneg(x: Seq<char>)
    requires
        all_digits(x),
    ensures
        0 <= decimal_value(x),
    decreases x.len(),
{
    if x.len() > 0 {
        assert(all_digits(x.drop_last()));
        lemma_decimal_nonneg(x.drop_last());
        assert(is_digit_char(x[x.len() - 1]));
    }
}

proof fn lemma_decimal_grows(d: Seq<char>, i: int, j: int)
    requires
        0 <= i <= j <= d.len(),
        all_digits(d),
    ensures
        0 <= decimal_value(d.take(i)) <= decimal_value(d.take(j)),
    decreases j,
{
    if i < j {
        lemma_decimal_grows(d, i, j - 1);
        assert(d.take(j).drop_last() =~= d.take(j - 1));
        assert(d.take(j).last() == d[j - 1]);
    } else {
        assert(all_digits(d.take(i)));
        lemma_decimal_nonneg(d.take(i));
    }
}

/// The number denoted by the decimal digits in `from..to`, or `None` where
/// it does not fit in a `usize`.
pub fn decimal_at(chars: &Vec<char>, from: usize, to: usize) -> (r: Option<usize>)
    requires
        from <= to <= chars.len(),
        all_digits(chars@.subrange(from as int, to as int)),
    ensures
        r == decimal_usize(chars@.subrange(from as int, to as int)),
{
    let ghost d = chars@.subrange(from as int, to as int);
    let mut acc: usize = 0;
    let mut i = from;
    assert(d.take(0).len() == 0);
    while i < to
        invariant
            from <= i <= to <= chars.len(),
            d == chars@.subrange(from as int, to as int),
            all_digits(d),
            acc == decimal_value(d.take(i - from)),
        decreases to - i,
    {
        let c = chars[i];
        assert(c == d[i - from]);
        assert(is_digit_char(c));
        let digit = (c as u32 - '0' as u32) as usize;
        assert(d.take(i - from + 1).drop_last() =~= d.take(i - from));
        assert(d.take(i - from + 1).last() == c);
        proof {
            lemma_decimal_grows(d, i - from + 1, d.len() as int);
        }
        match acc.checked_mul(10) {
            Some(m) => match m.checked_add(digit) {
                Some(n) => {
                    acc = n;
                },
                None => {
                    assert(d.take(d.len() as int) =~= d);
                    return None;
                },
            },
            None => {
                assert(d.take(d.len() as int) =~= d);
                return None;
            },
        }
        i += 1;
    }
    assert(d.take(to - from) =~= d);
    Some(acc)
}

} // verus!
