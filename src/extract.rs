//! Finding a `TODO` marker inside a comment on one line, and the task after it.
use vstd::prelude::*;

use crate::text::{string_of, trim, trim_str, white};

verus! {

/// What `regex_syntax::is_word_character` reports: a Unicode word character,
/// the class that decides where a word boundary lies.
pub uninterp spec fn word_char(c: char) -> bool;

/// What `char::is_alphanumeric` reports.
pub uninterp spec fn alnum(c: char) -> bool;

/// Relies on `regex_syntax::is_word_character`, the definition of a word
/// character behind the word boundary `\b` (the default features, which it
/// needs, are on).
#[verifier::external_body]
fn is_word_char(c: char) -> (r: bool)
    ensures
        r == word_char(c),
{
    regex_syntax::is_word_character(c)
}

/// Relies on `char::is_alphanumeric`.
#[verifier::external_body]
fn is_alnum(c: char) -> (r: bool)
    ensures
        r == alnum(c),
{
    c.is_alphanumeric()
}

pub open spec fn line_comment() -> Seq<char> {
    seq!['/', '/']
}

pub open spec fn block_open() -> Seq<char> {
    seq!['/', '*']
}

pub open spec fn block_close() -> Seq<char> {
    seq!['*', '/']
}

pub open spec fn hash_comment() -> Seq<char> {
    seq!['#']
}

pub open spec fn dash_comment() -> Seq<char> {
    seq!['-', '-']
}

pub open spec fn markup_open() -> Seq<char> {
    seq!['<', '!', '-', '-']
}

pub open spec fn markup_close() -> Seq<char> {
    seq!['-', '-', '>']
}

pub open spec fn keyword() -> Seq<char> {
    seq!['T', 'O', 'D', 'O']
}

/// `pat` occurs in `l` starting at index `i`.
pub open spec fn occurs_at(l: Seq<char>, i: int, pat: Seq<char>) -> bool {
    &&& 0 <= i
    &&& i + pat.len() <= l.len()
    &&& forall|k: int| 0 <= k < pat.len() ==> l[i + k] == pat[k]
}

/// The first index at or after `i` where `pat` occurs, or `l.len()` if none.
pub open spec fn next_occurrence(l: Seq<char>, i: int, pat: Seq<char>) -> int
    decreases l.len() - i,
{
    if i >= l.len() {
        l.len() as int
    } else if occurs_at(l, i, pat) {
        i
    } else {
        next_occurrence(l, i + 1, pat)
    }
}

/// No line break among `l[a..b]`: a single-line match cannot cross one.
pub open spec fn no_newline(l: Seq<char>, a: int, b: int) -> bool {
    forall|k: int| a <= k < b ==> l[k] != '\n'
}

/// The whole word `TODO` starts at `p`: no word character touches it.
pub open spec fn keyword_at(l: Seq<char>, p: int) -> bool {
    &&& occurs_at(l, p, keyword())
    &&& (p == 0 || !word_char(l[p - 1]))
    &&& (p + 4 == l.len() || !word_char(l[p + 4]))
}

/// The first index at or after `i` where the word `TODO` starts, or `l.len()`.
pub open spec fn next_keyword(l: Seq<char>, i: int) -> int
    decreases l.len() - i,
{
    if i >= l.len() {
        l.len() as int
    } else if keyword_at(l, i) {
        i
    } else {
        next_keyword(l, i + 1)
    }
}

/// Where the text after a closing token begins, when `close` occurs at or
/// after `i` before the line ends (the first such occurrence).
pub open spec fn close_end(l: Seq<char>, i: int, close: Seq<char>) -> Option<int> {
    let q = next_occurrence(l, i, close);
    if q < l.len() && no_newline(l, i, q) {
        Some(q + close.len())
    } else {
        None
    }
}

/// Where the comment opened at `s` lets the search for the keyword begin:
/// right after `//`, `#` or `--`; after the first `*/` that closes `/*`, or
/// the first `-->` that closes `<!--`.
pub open spec fn opener_end(l: Seq<char>, s: int) -> Option<int> {
    if occurs_at(l, s, line_comment()) {
        Some(s + 2)
    } else if occurs_at(l, s, block_open()) {
        close_end(l, s + 2, block_close())
    } else if occurs_at(l, s, hash_comment()) {
        Some(s + 1)
    } else if occurs_at(l, s, dash_comment()) {
        Some(s + 2)
    } else if occurs_at(l, s, markup_open()) {
        close_end(l, s + 4, markup_close())
    } else {
        None
    }
}

/// The keyword that a comment opened at `s` leads to: the first whole word
/// `TODO` after the opener, on the same line.
pub open spec fn marker_from(l: Seq<char>, s: int) -> Option<int> {
    match opener_end(l, s) {
        Some(e) => {
            let p = next_keyword(l, e);
            if p < l.len() && no_newline(l, e, p) {
                Some(p)
            } else {
                None
            }
        },
        None => None,
    }
}

/// The keyword reached from the leftmost comment opener, at or after `s`,
/// that leads to one.
pub open spec fn first_marker(l: Seq<char>, s: int) -> Option<int>
    decreases l.len() - s,
{
    if s >= l.len() {
        None
    } else if marker_from(l, s) is Some {
        marker_from(l, s)
    } else {
        first_marker(l, s + 1)
    }
}

/// Index after the keyword at `p` and its optional colon.
pub open spec fn after_colon(l: Seq<char>, p: int) -> int {
    if p + 4 < l.len() && l[p + 4] == ':' {
        p + 5
    } else {
        p + 4
    }
}

/// Index after the spaces and tabs that start at `i`.
pub open spec fn skip_blanks(l: Seq<char>, i: int) -> int
    decreases l.len() - i,
{
    if 0 <= i < l.len() && (l[i] == ' ' || l[i] == '\t') {
        skip_blanks(l, i + 1)
    } else {
        i
    }
}

/// Where the task text after the keyword at `p` begins.
pub open spec fn task_start(l: Seq<char>, p: int) -> int {
    skip_blanks(l, after_colon(l, p))
}

/// The text that follows the marker, up to the end of its line, untrimmed.
pub open spec fn raw_task(l: Seq<char>) -> Option<Seq<char>> {
    match first_marker(l, 0) {
        Some(p) => {
            let c = task_start(l, p);
            Some(l.subrange(c, next_occurrence(l, c, seq!['\n'])))
        },
        None => None,
    }
}

/// `t` without the characters at its end that are not alphanumeric.
pub open spec fn strip_symbols(t: Seq<char>) -> Seq<char>
    decreases t.len(),
{
    if t.len() > 0 && !alnum(t.last()) {
        strip_symbols(t.drop_last())
    } else {
        t
    }
}

/// What is kept of a raw task text.
pub open spec fn clean_task(t: Seq<char>) -> Seq<char> {
    trim(strip_symbols(t))
}

/// The task that line `l` holds, if any.
pub open spec fn task_of(l: Seq<char>) -> Option<Seq<char>> {
    match raw_task(l) {
        Some(r) => if clean_task(r).len() > 0 {
            Some(clean_task(r))
        } else {
            None
        },
        None => None,
    }
}

fn occurs_at_exec(l: &[char], i: usize, pat: &[char]) -> (r: bool)
    ensures
        r == occurs_at(l@, i as int, pat@),
{
    let n = l.len();
    if i > n || n - i < pat.len() {
        return false;
    }
    let mut k: usize = 0;
    while k < pat.len()
        invariant
            n == l@.len(),
            k <= pat@.len(),
            i + pat@.len() <= l@.len(),
            forall|j: int| 0 <= j < k ==> l@[i + j] == pat@[j],
        decreases pat@.len() - k,
    {
        if l[i + k] != pat[k] {
            return false;
        }
        k = k + 1;
    }
    true
}

pub(crate) fn next_occurrence_exec(l: &[char], i: usize, pat: &[char]) -> (r: usize)
    ensures
        r == next_occurrence(l@, i as int, pat@),
        r <= l@.len(),
        i <= l@.len() ==> i <= r,
        r < l@.len() ==> occurs_at(l@, r as int, pat@),
{
    if i >= l.len() {
        return l.len();
    }
    let mut j: usize = i;
    while j < l.len()
        invariant
            i <= j <= l@.len(),
            next_occurrence(l@, i as int, pat@) == next_occurrence(l@, j as int, pat@),
        decreases l@.len() - j,
    {
        if occurs_at_exec(l, j, pat) {
            return j;
        }
        j = j + 1;
    }
    l.len()
}

fn no_newline_exec(l: &[char], a: usize, b: usize) -> (r: bool)
    requires
        a <= b <= l@.len(),
    ensures
        r == no_newline(l@, a as int, b as int),
{
    let mut k: usize = a;
    while k < b
        invariant
            a <= k <= b <= l@.len(),
            no_newline(l@, a as int, k as int),
        decreases b - k,
    {
        if l[k] == '\n' {
            return false;
        }
        k = k + 1;
    }
    true
}

fn keyword_at_exec(l: &[char], p: usize) -> (r: bool)
    ensures
        r == keyword_at(l@, p as int),
{
    let kw: &[char] = &['T', 'O', 'D', 'O'];
    assert(kw@ =~= keyword());
    occurs_at_exec(l, p, kw)
        && (p == 0 || !is_word_char(l[p - 1]))
        && (p + 4 == l.len() || !is_word_char(l[p + 4]))
}

fn next_keyword_exec(l: &[char], i: usize) -> (r: usize)
    ensures
        r == next_keyword(l@, i as int),
        r <= l@.len(),
        i <= l@.len() ==> i <= r,
{
    if i >= l.len() {
        return l.len();
    }
    let mut j: usize = i;
    while j < l.len()
        invariant
            i <= j <= l@.len(),
            next_keyword(l@, i as int) == next_keyword(l@, j as int),
        decreases l@.len() - j,
    {
        if keyword_at_exec(l, j) {
            return j;
        }
        j = j + 1;
    }
    l.len()
}

fn close_end_exec(l: &[char], i: usize, close: &[char]) -> (r: Option<usize>)
    requires
        i <= l@.len(),
        close@.len() <= 3,
    ensures
        r matches Some(e) ==> close_end(l@, i as int, close@) == Some(e as int) && e <= l@.len(),
        r is None ==> close_end(l@, i as int, close@) is None,
{
    let q = next_occurrence_exec(l, i, close);
    if q < l.len() && no_newline_exec(l, i, q) {
        Some(q + close.len())
    } else {
        None
    }
}

fn opener_end_exec(l: &[char], s: usize) -> (r: Option<usize>)
    requires
        s < l@.len(),
    ensures
        r matches Some(e) ==> opener_end(l@, s as int) == Some(e as int) && e <= l@.len(),
        r is None ==> opener_end(l@, s as int) is None,
{
    let n = l.len();
    let lc: &[char] = &['/', '/'];
    let bo: &[char] = &['/', '*'];
    let bc: &[char] = &['*', '/'];
    let hc: &[char] = &['#'];
    let dc: &[char] = &['-', '-'];
    let mo: &[char] = &['<', '!', '-', '-'];
    let mc: &[char] = &['-', '-', '>'];
    assert(lc@ =~= line_comment());
    assert(bo@ =~= block_open());
    assert(bc@ =~= block_close());
    assert(hc@ =~= hash_comment());
    assert(dc@ =~= dash_comment());
    assert(mo@ =~= markup_open());
    assert(mc@ =~= markup_close());
    if occurs_at_exec(l, s, lc) {
        Some(s + 2)
    } else if occurs_at_exec(l, s, bo) {
        close_end_exec(l, s + 2, bc)
    } else if occurs_at_exec(l, s, hc) {
        Some(s + 1)
    } else if occurs_at_exec(l, s, dc) {
        Some(s + 2)
    } else if occurs_at_exec(l, s, mo) {
        close_end_exec(l, s + 4, mc)
    } else {
        None
    }
}

fn marker_from_exec(l: &[char], s: usize) -> (r: Option<usize>)
    requires
        s < l@.len(),
    ensures
        r matches Some(p) ==> marker_from(l@, s as int) == Some(p as int),
        r is None ==> marker_from(l@, s as int) is None,
{
    match opener_end_exec(l, s) {
        Some(e) => {
            let p = next_keyword_exec(l, e);
            if p < l.len() && no_newline_exec(l, e, p) {
                Some(p)
            } else {
                None
            }
        },
        None => None,
    }
}

fn first_marker_exec(l: &[char]) -> (r: Option<usize>)
    ensures
        r matches Some(p) ==> first_marker(l@, 0) == Some(p as int),
        r is None ==> first_marker(l@, 0) is None,
{
    let mut s: usize = 0;
    while s < l.len()
        invariant
            s <= l@.len(),
            first_marker(l@, 0) == first_marker(l@, s as int),
        decreases l@.len() - s,
    {
        let m = marker_from_exec(l, s);
        if m.is_some() {
            return m;
        }
        s = s + 1;
    }
    None
}

fn skip_blanks_exec(l: &[char], i: usize) -> (r: usize)
    requires
        i <= l@.len(),
    ensures
        r == skip_blanks(l@, i as int),
        i <= r <= l@.len(),
{
    let mut j: usize = i;
    while j < l.len() && (l[j] == ' ' || l[j] == '\t')
        invariant
            i <= j <= l@.len(),
            skip_blanks(l@, i as int) == skip_blanks(l@, j as int),
        decreases l@.len() - j,
    {
        j = j + 1;
    }
    j
}

/// `todo_text` without the characters at its end that are not alphanumeric:
/// punctuation, closing comment tokens, quotes and whitespace.
pub fn strip_trailing_comment_symbols(todo_text: &str) -> (r: &str)
    ensures
        r@ == strip_symbols(todo_text@),
{
    let n = todo_text.unicode_len();
    let mut end: usize = n;
    assert(todo_text@.take(n as int) == todo_text@);
    while end > 0 && !is_alnum(todo_text.get_char(end - 1))
        invariant
            end <= todo_text@.len(),
            strip_symbols(todo_text@) == strip_symbols(todo_text@.take(end as int)),
        decreases end,
    {
        assert(todo_text@.take(end as int).drop_last() == todo_text@.take(end - 1));
        end = end - 1;
    }
    todo_text.substring_char(0, end)
}

/// The task held by the line whose characters are `l`.
pub(crate) fn task_in(l: &[char]) -> (r: Option<String>)
    ensures
        r matches Some(t) ==> task_of(l@) == Some(t@),
        r is None ==> task_of(l@) is None,
{
    let kw: &[char] = &['T', 'O', 'D', 'O'];
    assert(kw@ =~= keyword());
    if l.len() == 0 || next_occurrence_exec(l, 0, kw) == l.len() {
        proof {
            lemma_no_occurrence_from(l@, 0, keyword());
            law_embedded_keyword_no_task(l@);
        }
        return None;
    }
    let p = match first_marker_exec(l) {
        Some(p) => p,
        None => return None,
    };
    let ghost pi = p as int;
    assert(first_marker(l@, 0) == Some(pi));
    proof {
        lemma_first_marker_is_keyword(l@, 0);
    }
    let n = l.len();
    let a = if p + 4 < n && l[p + 4] == ':' {
        p + 5
    } else {
        p + 4
    };
    let c = skip_blanks_exec(l, a);
    let nl: &[char] = &['\n'];
    assert(nl@ =~= seq!['\n']);
    let end = next_occurrence_exec(l, c, nl);
    let raw = string_of(vstd::slice::slice_subrange(l, c, end));
    let stripped = strip_trailing_comment_symbols(raw.as_str());
    let task = trim_str(stripped);
    if task.unicode_len() > 0 {
        Some(task.to_owned())
    } else {
        None
    }
}

/// The task of a line that holds a `TODO` marker in a comment: the text
/// after the marker, without trailing symbols and surrounding whitespace.
/// `None` for a line without a marker, or with nothing to do after it.
pub fn extract_task(line: &str) -> (r: Option<String>)
    ensures
        r matches Some(t) ==> task_of(line@) == Some(t@),
        r is None ==> task_of(line@) is None,
{
    let chars = crate::text::chars_of(line);
    task_in(chars.as_slice())
}

proof fn lemma_first_marker_is_keyword(l: Seq<char>, s: int)
    requires
        0 <= s,
        first_marker(l, s) is Some,
    ensures
        keyword_at(l, first_marker(l, s)->0),
        s <= first_marker(l, s)->0,
    decreases l.len() - s,
{
    if marker_from(l, s) is Some {
        let e = opener_end(l, s)->0;
        lemma_next_keyword_found(l, e);
        lemma_opener_end_after(l, s);
    } else {
        lemma_first_marker_is_keyword(l, s + 1);
    }
}

proof fn lemma_opener_end_after(l: Seq<char>, s: int)
    requires
        0 <= s,
        opener_end(l, s) is Some,
    ensures
        s <= opener_end(l, s)->0,
{
    if !occurs_at(l, s, line_comment()) && occurs_at(l, s, block_open()) {
        lemma_next_occurrence_after(l, s + 2, block_close());
    } else if !occurs_at(l, s, line_comment()) && !occurs_at(l, s, block_open())
        && !occurs_at(l, s, hash_comment()) && !occurs_at(l, s, dash_comment()) {
        lemma_next_occurrence_after(l, s + 4, markup_close());
    }
}

proof fn lemma_next_occurrence_after(l: Seq<char>, i: int, pat: Seq<char>)
    ensures
        i <= next_occurrence(l, i, pat) || i >= l.len(),
        next_occurrence(l, i, pat) <= l.len() || i >= l.len(),
        next_occurrence(l, i, pat) < l.len() ==> occurs_at(l, next_occurrence(l, i, pat), pat),
    decreases l.len() - i,
{
    if i < l.len() && !occurs_at(l, i, pat) {
        lemma_next_occurrence_after(l, i + 1, pat);
    }
}

proof fn lemma_next_keyword_found(l: Seq<char>, i: int)
    ensures
        next_keyword(l, i) < l.len() ==> keyword_at(l, next_keyword(l, i)) && i <= next_keyword(l, i),
    decreases l.len() - i,
{
    if i < l.len() && !keyword_at(l, i) {
        lemma_next_keyword_found(l, i + 1);
    }
}

/// A line with a marker whose text, once trailing symbols and surrounding
/// whitespace are removed, is not empty yields exactly that cleaned text.
pub proof fn law_marked_line_yields_cleaned_task(l: Seq<char>)
    requires
        raw_task(l) is Some,
        clean_task(raw_task(l)->0).len() > 0,
    ensures
        task_of(l) == Some(clean_task(raw_task(l)->0)),
{
}

/// On a single line whose only whole word `TODO` starts at `p`, after a
/// `//`, `#` or `--` that ends at or before `p`, or after a `/*` whose first
/// `*/` ends at or before `p` (`<!--` holds a `--`), the task is the rest of the
/// line after the keyword, its optional colon and the spaces and tabs that
/// follow, once trailing symbols and surrounding whitespace are removed; no
/// task when that leaves nothing.
pub proof fn law_single_marker_after_opener(l: Seq<char>, s: int, p: int)
    requires
        no_newline(l, 0, l.len() as int),
        keyword_at(l, p),
        forall|q: int| #[trigger] keyword_at(l, q) ==> q == p,
        occurs_at(l, s, line_comment()) && s + 2 <= p || occurs_at(l, s, hash_comment()) && s + 1
            <= p || occurs_at(l, s, dash_comment()) && s + 2 <= p || occurs_at(l, s, block_open())
            && next_occurrence(l, s + 2, block_close()) + 2 <= p,
    ensures
        raw_task(l) == Some(l.subrange(task_start(l, p), l.len() as int)),
        task_of(l) == if clean_task(l.subrange(task_start(l, p), l.len() as int)).len() > 0 {
            Some(clean_task(l.subrange(task_start(l, p), l.len() as int)))
        } else {
            None
        },
{
    if occurs_at(l, s, line_comment()) {
        assert(l[s + 0] == line_comment()[0]);
        assert(opener_end(l, s) == Some(s + 2));
    } else if occurs_at(l, s, block_open()) && next_occurrence(l, s + 2, block_close()) + 2 <= p {
        assert(l[s + 1] == block_open()[1]);
        assert(!occurs_at(l, s, line_comment())) by {
            assert(line_comment()[1] != block_open()[1]);
        }
        lemma_next_occurrence_after(l, s + 2, block_close());
        assert(close_end(l, s + 2, block_close()) == Some(
            next_occurrence(l, s + 2, block_close()) + 2,
        ));
    } else if occurs_at(l, s, hash_comment()) {
        assert(l[s + 0] == hash_comment()[0]);
        assert(!occurs_at(l, s, block_open())) by {
            assert(block_open()[0] != hash_comment()[0]);
        }
        assert(opener_end(l, s) == Some(s + 1));
    } else {
        assert(l[s + 0] == dash_comment()[0]);
        assert(!occurs_at(l, s, block_open())) by {
            assert(block_open()[0] != dash_comment()[0]);
        }
        assert(!occurs_at(l, s, hash_comment())) by {
            assert(hash_comment()[0] != dash_comment()[0]);
        }
        assert(opener_end(l, s) == Some(s + 2));
    }
    let e = opener_end(l, s)->0;
    assert(s <= e <= p);
    lemma_next_keyword_is(l, e, p);
    assert(marker_from(l, s) == Some(p));
    lemma_first_marker_reaches(l, 0, s);
    lemma_first_marker_is_keyword(l, 0);
    assert(first_marker(l, 0) == Some(p));
    let c = task_start(l, p);
    lemma_skip_blanks_within(l, after_colon(l, p), l.len() as int);
    lemma_next_occurrence_after(l, c, seq!['\n']);
    if next_occurrence(l, c, seq!['\n']) < l.len() {
        let z = next_occurrence(l, c, seq!['\n']);
        assert(occurs_at(l, z, seq!['\n']));
        assert(l[z + 0] == seq!['\n'][0]);
    }
}

proof fn lemma_next_keyword_is(l: Seq<char>, i: int, p: int)
    requires
        0 <= i <= p,
        keyword_at(l, p),
        forall|q: int| #[trigger] keyword_at(l, q) ==> q == p,
    ensures
        next_keyword(l, i) == p,
    decreases p - i,
{
    if i < p {
        assert(!keyword_at(l, i));
        lemma_next_keyword_is(l, i + 1, p);
    }
}

proof fn lemma_first_marker_reaches(l: Seq<char>, i: int, s: int)
    requires
        0 <= i <= s < l.len(),
        marker_from(l, s) is Some,
    ensures
        first_marker(l, i) is Some,
    decreases s - i,
{
    if i < s && marker_from(l, i) is None {
        lemma_first_marker_reaches(l, i + 1, s);
    }
}

/// A line holding none of the comment openers `//`, `/*`, `#`, `--`, `<!--`
/// yields no task, whether or not it holds `TODO`.
pub proof fn law_no_comment_no_task(l: Seq<char>)
    requires
        forall|i: int|
            !occurs_at(l, i, line_comment()) && !occurs_at(l, i, block_open())
                && !occurs_at(l, i, hash_comment()) && !occurs_at(l, i, dash_comment())
                && !occurs_at(l, i, markup_open()),
    ensures
        task_of(l) is None,
{
    lemma_no_marker_from(l, 0);
}

/// A line where every `TODO` is part of a longer word yields no task.
pub proof fn law_embedded_keyword_no_task(l: Seq<char>)
    requires
        forall|p: int|
            #![trigger occurs_at(l, p, keyword())]
            occurs_at(l, p, keyword()) ==> (p > 0 && word_char(l[p - 1])) || (p + 4 < l.len()
                && word_char(l[p + 4])),
    ensures
        task_of(l) is None,
{
    assert forall|i: int| #[trigger] marker_from(l, i) is None by {
        if opener_end(l, i) is Some {
            lemma_no_keyword_from(l, opener_end(l, i)->0);
        }
    }
    lemma_no_marker_from(l, 0);
}

/// A marker followed, after its optional colon, by nothing but whitespace up
/// to the end of its line yields no task.
pub proof fn law_blank_after_marker_no_task(l: Seq<char>)
    requires
        first_marker(l, 0) is Some,
        forall|k: int|
            after_colon(l, first_marker(l, 0)->0) <= k < next_occurrence(
                l,
                after_colon(l, first_marker(l, 0)->0),
                seq!['\n'],
            ) ==> white(#[trigger] l[k]),
    ensures
        task_of(l) is None,
{
    let p = first_marker(l, 0)->0;
    lemma_first_marker_is_keyword(l, 0);
    let a = after_colon(l, p);
    let e = next_occurrence(l, a, seq!['\n']);
    lemma_next_occurrence_after(l, a, seq!['\n']);
    if e < l.len() {
        assert(occurs_at(l, e, seq!['\n']));
        assert(l[e + 0] == seq!['\n'][0]);
    }
    lemma_skip_blanks_within(l, a, e);
    let c = skip_blanks(l, a);
    lemma_next_occurrence_same(l, a, c, seq!['\n']);
    let r = l.subrange(c, e);
    assert(raw_task(l) == Some(r));
    assert forall|k: int| 0 <= k < r.len() implies white(#[trigger] r[k]) by {
        assert(r[k] == l[c + k]);
    }
    lemma_strip_symbols_prefix(r);
    let t = strip_symbols(r);
    assert forall|k: int| 0 <= k < t.len() implies white(#[trigger] t[k]) by {
        assert(t[k] == r[k]);
    }
    lemma_trim_end_all_white(t);
}

proof fn lemma_no_occurrence_from(l: Seq<char>, i: int, pat: Seq<char>)
    requires
        0 <= i,
        pat.len() > 0,
        next_occurrence(l, i, pat) >= l.len(),
    ensures
        forall|j: int| i <= j ==> !occurs_at(l, j, pat),
    decreases l.len() - i,
{
    if i < l.len() {
        lemma_no_occurrence_from(l, i + 1, pat);
        assert(!occurs_at(l, i, pat));
    }
}

proof fn lemma_no_marker_from(l: Seq<char>, s: int)
    requires
        forall|i: int| #[trigger] opener_end(l, i) is None || marker_from(l, i) is None,
    ensures
        first_marker(l, s) is None,
    decreases l.len() - s,
{
    if s < l.len() {
        assert(opener_end(l, s) is None || marker_from(l, s) is None);
        lemma_no_marker_from(l, s + 1);
    }
}

proof fn lemma_no_keyword_from(l: Seq<char>, i: int)
    requires
        forall|p: int| #![trigger occurs_at(l, p, keyword())] !keyword_at(l, p),
    ensures
        next_keyword(l, i) == l.len() || i >= l.len(),
    decreases l.len() - i,
{
    if i < l.len() {
        assert(!keyword_at(l, i));
        lemma_no_keyword_from(l, i + 1);
        if i + 1 >= l.len() {
            assert(next_keyword(l, i + 1) == l.len());
        }
    }
}

proof fn lemma_skip_blanks_within(l: Seq<char>, j: int, e: int)
    requires
        0 <= j <= e <= l.len(),
        e < l.len() ==> l[e] == '\n',
    ensures
        j <= skip_blanks(l, j) <= e,
        forall|k: int| j <= k < skip_blanks(l, j) ==> l[k] == ' ' || l[k] == '\t',
    decreases l.len() - j,
{
    if j < l.len() && (l[j] == ' ' || l[j] == '\t') {
        lemma_skip_blanks_within(l, j + 1, e);
    }
}

proof fn lemma_next_occurrence_same(l: Seq<char>, a: int, c: int, pat: Seq<char>)
    requires
        0 <= a <= c,
        c <= next_occurrence(l, a, pat),
    ensures
        next_occurrence(l, c, pat) == next_occurrence(l, a, pat),
    decreases c - a,
{
    if a < c {
        if a < l.len() {
            assert(!occurs_at(l, a, pat));
            lemma_next_occurrence_same(l, a + 1, c, pat);
        }
    }
}

proof fn lemma_strip_symbols_prefix(t: Seq<char>)
    ensures
        strip_symbols(t).len() <= t.len(),
        forall|k: int| 0 <= k < strip_symbols(t).len() ==> strip_symbols(t)[k] == t[k],
    decreases t.len(),
{
    if t.len() > 0 && !alnum(t.last()) {
        lemma_strip_symbols_prefix(t.drop_last());
        assert(forall|k: int| 0 <= k < t.drop_last().len() ==> t.drop_last()[k] == t[k]);
    }
}

proof fn lemma_trim_end_all_white(t: Seq<char>)
    requires
        forall|k: int| 0 <= k < t.len() ==> white(#[trigger] t[k]),
    ensures
        trim(t).len() == 0,
    decreases t.len(),
{
    if t.len() > 0 {
        assert(white(t[t.len() - 1]));
        lemma_trim_end_all_white(t.drop_last());
    }
}

} // verus!
