//! Parser for the `.env` dialect that dotenv libraries actually write.
//!
//! Deliberately does not strip inline comments from unquoted values: a '#' is
//! far more likely to be part of a generated password than the start of a
//! comment, and silently truncating a secret is worse than keeping a stray
//! note. Put the value in quotes if it needs a trailing comment.
//!
//! The grammar is stated by spec functions over the text that remains to be
//! read and the current line number; `parse` is proved to compute
//! `parse_doc` and `format` to compute `dotenv_text`.

use crate::envset::{valid_key, validate_key};
use crate::keymap::entry_views;
use crate::text::{debug_quote, debug_text, is_white_space, string_from_range, to_chars, white_space};
use vstd::prelude::*;
use vstd::string::StringExecFns;

verus! {

broadcast use vstd::string::group_string_axioms;

// ---------------------------------------------------------------------------
// The grammar.

/// A space or a tab: what may separate `export` from a key, and a key or a
/// `=` from what follows.
pub open spec fn is_blank(c: char) -> bool {
    c == ' ' || c == '\t'
}

/// Skips white space, counting the line breaks crossed.
pub open spec fn skip_space(s: Seq<char>, line: int) -> (Seq<char>, int)
    decreases s.len(),
{
    if s.len() > 0 && is_white_space(s[0]) {
        skip_space(s.drop_first(), if s[0] == '\n' { line + 1 } else { line })
    } else {
        (s, line)
    }
}

/// Skips to the end of the line; the line break itself is not consumed.
pub open spec fn skip_comment(s: Seq<char>) -> Seq<char>
    decreases s.len(),
{
    if s.len() > 0 && s[0] != '\n' {
        skip_comment(s.drop_first())
    } else {
        s
    }
}

/// Skips spaces and tabs.
pub open spec fn skip_blanks(s: Seq<char>) -> Seq<char>
    decreases s.len(),
{
    if s.len() > 0 && is_blank(s[0]) {
        skip_blanks(s.drop_first())
    } else {
        s
    }
}

/// `s` starts with the word `w` followed by a space or a tab.
pub open spec fn starts_with_word(s: Seq<char>, w: Seq<char>) -> bool {
    s.len() > w.len() && s.take(w.len() as int) == w && is_blank(s[w.len() as int])
}

pub open spec fn export_word() -> Seq<char> {
    seq!['e', 'x', 'p', 'o', 'r', 't']
}

/// The length of the leading run of characters that are neither '=' nor a
/// line break.
pub open spec fn key_span(s: Seq<char>) -> nat
    decreases s.len(),
{
    if s.len() > 0 && s[0] != '=' && s[0] != '\n' {
        1 + key_span(s.drop_first())
    } else {
        0
    }
}

/// The length of the leading run of characters that are not a line break.
pub open spec fn line_span(s: Seq<char>) -> nat
    decreases s.len(),
{
    if s.len() > 0 && s[0] != '\n' {
        1 + line_span(s.drop_first())
    } else {
        0
    }
}

pub open spec fn trim_start(s: Seq<char>) -> Seq<char>
    decreases s.len(),
{
    if s.len() > 0 && is_white_space(s[0]) {
        trim_start(s.drop_first())
    } else {
        s
    }
}

pub open spec fn trim_end(s: Seq<char>) -> Seq<char>
    decreases s.len(),
{
    if s.len() > 0 && is_white_space(s.last()) {
        trim_end(s.drop_last())
    } else {
        s
    }
}

/// What a backslash followed by `e` stands for inside double quotes.
pub open spec fn escape_value(e: char) -> Seq<char> {
    if e == 'n' {
        seq!['\n']
    } else if e == 't' {
        seq!['\t']
    } else if e == 'r' {
        seq!['\r']
    } else if e == '"' {
        seq!['"']
    } else if e == '\'' {
        seq!['\'']
    } else if e == '\\' {
        seq!['\\']
    } else if e == '\n' {
        seq![]
    } else {
        seq!['\\', e]
    }
}

/// The value of a double-quoted field whose opening quote has been read:
/// the value, the text after the closing quote and the line reached there,
/// or `None` when the text ends first.
pub open spec fn scan_double(s: Seq<char>, line: int) -> Option<(Seq<char>, Seq<char>, int)>
    decreases s.len(),
{
    if s.len() == 0 {
        None
    } else if s[0] == '"' {
        Some((seq![], s.drop_first(), line))
    } else if s[0] == '\\' {
        if s.len() < 2 {
            None
        } else {
            match scan_double(s.skip(2), if s[1] == '\n' { line + 1 } else { line }) {
                Some((v, rest, l)) => Some((escape_value(s[1]) + v, rest, l)),
                None => None,
            }
        }
    } else {
        match scan_double(s.drop_first(), if s[0] == '\n' { line + 1 } else { line }) {
            Some((v, rest, l)) => Some((seq![s[0]] + v, rest, l)),
            None => None,
        }
    }
}

/// The value of a single-quoted field, taken literally.
pub open spec fn scan_single(s: Seq<char>, line: int) -> Option<(Seq<char>, Seq<char>, int)>
    decreases s.len(),
{
    if s.len() == 0 {
        None
    } else if s[0] == '\'' {
        Some((seq![], s.drop_first(), line))
    } else {
        match scan_single(s.drop_first(), if s[0] == '\n' { line + 1 } else { line }) {
            Some((v, rest, l)) => Some((seq![s[0]] + v, rest, l)),
            None => None,
        }
    }
}

pub open spec fn missing_equals_text() -> Seq<char> {
    "expected KEY=VALUE"@
}

pub open spec fn unterminated_double_text() -> Seq<char> {
    "unterminated double-quoted value"@
}

pub open spec fn unterminated_single_text() -> Seq<char> {
    "unterminated single-quoted value"@
}

pub open spec fn invalid_name_text(key: Seq<char>) -> Seq<char> {
    "invalid variable name "@ + debug_text(key)
}

/// The value after `=` and the blanks that follow it: the value, the text
/// after it and the line reached there, or the reason it is malformed.
pub open spec fn scan_value(s: Seq<char>, line: int) -> Result<(Seq<char>, Seq<char>, int), Seq<char>> {
    if s.len() > 0 && s[0] == '"' {
        match scan_double(s.drop_first(), line) {
            Some(r) => Ok(r),
            None => Err(unterminated_double_text()),
        }
    } else if s.len() > 0 && s[0] == '\'' {
        match scan_single(s.drop_first(), line) {
            Some(r) => Ok(r),
            None => Err(unterminated_single_text()),
        }
    } else {
        Ok((trim_end(s.take(line_span(s) as int)), s.skip(line_span(s) as int), line))
    }
}

/// One `KEY=VALUE` entry starting at the first character of `s`: the key,
/// the value, the text after the value and the line reached there, or the
/// reason the entry is malformed.
pub open spec fn scan_entry(s: Seq<char>, line: int) -> Result<(Seq<char>, Seq<char>, Seq<char>, int), Seq<char>> {
    let s1 = if starts_with_word(s, export_word()) {
        skip_blanks(s.skip(6))
    } else {
        s
    };
    let n = key_span(s1);
    if n == s1.len() || s1[n as int] == '\n' {
        Err(missing_equals_text())
    } else {
        let key = trim_end(trim_start(s1.take(n as int)));
        match scan_value(skip_blanks(s1.skip(n + 1int)), line) {
            Err(reason) => Err(reason),
            Ok((value, rest, l)) => if valid_key(key) {
                Ok((key, value, rest, l))
            } else {
                Err(invalid_name_text(key))
            },
        }
    }
}

/// The entries of the document `s` whose first line is `line`, or the line
/// of the first malformed entry with the reason.
pub open spec fn parse_doc(s: Seq<char>, line: int) -> Result<Seq<(Seq<char>, Seq<char>)>, (int, Seq<char>)>
    decreases s.len(),
{
    let (t, l) = skip_space(s, line);
    if t.len() == 0 {
        Ok(seq![])
    } else if t[0] == '#' {
        proof {
            lemma_skip_space_len(s, line);
            lemma_skip_comment_len(t);
        }
        parse_doc(skip_comment(t), l)
    } else {
        match scan_entry(t, l) {
            Err(reason) => Err((l, reason)),
            Ok((key, value, rest, l2)) => {
                proof {
                    lemma_skip_space_len(s, line);
                    lemma_scan_entry_len(t, l);
                }
                match parse_doc(rest, l2) {
                    Ok(entries) => Ok(seq![(key, value)] + entries),
                    Err(e) => Err(e),
                }
            },
        }
    }
}

/// The result of `parse_doc` on what follows entries already read.
pub open spec fn after_entries(
    done: Seq<(Seq<char>, Seq<char>)>,
    r: Result<Seq<(Seq<char>, Seq<char>)>, (int, Seq<char>)>,
) -> Result<Seq<(Seq<char>, Seq<char>)>, (int, Seq<char>)> {
    match r {
        Ok(entries) => Ok(done + entries),
        Err(e) => Err(e),
    }
}

// ---------------------------------------------------------------------------
// Every scan consumes text, which is what makes `parse_doc` well-founded.

pub proof fn lemma_skip_space_len(s: Seq<char>, line: int)
    ensures
        skip_space(s, line).0.len() <= s.len(),
        skip_space(s, line).1 >= line,
        skip_space(s, line).1 - line <= s.len() - skip_space(s, line).0.len(),
        skip_space(s, line).0 == s.skip(s.len() - skip_space(s, line).0.len()),
    decreases s.len(),
{
    if s.len() > 0 && is_white_space(s[0]) {
        lemma_skip_space_len(s.drop_first(), if s[0] == '\n' { line + 1 } else { line });
        let r = skip_space(s, line).0;
        assert(s.drop_first().skip(s.drop_first().len() - r.len()) =~= s.skip(s.len() - r.len()));
    } else {
        assert(s.skip(0) =~= s);
    }
}

pub proof fn lemma_skip_comment_len(s: Seq<char>)
    ensures
        skip_comment(s).len() <= s.len(),
        s.len() > 0 && s[0] != '\n' ==> skip_comment(s).len() < s.len(),
        skip_comment(s) == s.skip(s.len() - skip_comment(s).len()),
    decreases s.len(),
{
    if s.len() > 0 && s[0] != '\n' {
        lemma_skip_comment_len(s.drop_first());
        let r = skip_comment(s);
        assert(s.drop_first().skip(s.drop_first().len() - r.len()) =~= s.skip(s.len() - r.len()));
    } else {
        assert(s.skip(0) =~= s);
    }
}

pub proof fn lemma_skip_blanks_len(s: Seq<char>)
    ensures
        skip_blanks(s).len() <= s.len(),
        skip_blanks(s) == s.skip(s.len() - skip_blanks(s).len()),
    decreases s.len(),
{
    if s.len() > 0 && is_blank(s[0]) {
        lemma_skip_blanks_len(s.drop_first());
        let r = skip_blanks(s);
        assert(s.drop_first().skip(s.drop_first().len() - r.len()) =~= s.skip(s.len() - r.len()));
    } else {
        assert(s.skip(0) =~= s);
    }
}

pub proof fn lemma_key_span_len(s: Seq<char>)
    ensures
        key_span(s) <= s.len(),
        forall|i: int| 0 <= i < key_span(s) ==> #[trigger] s[i] != '=' && s[i] != '\n',
        key_span(s) < s.len() ==> (s[key_span(s) as int] == '=' || s[key_span(s) as int] == '\n'),
    decreases s.len(),
{
    if s.len() > 0 && s[0] != '=' && s[0] != '\n' {
        lemma_key_span_len(s.drop_first());
        assert forall|i: int| 0 <= i < key_span(s) implies #[trigger] s[i] != '=' && s[i] != '\n' by {
            if i > 0 {
                assert(s[i] == s.drop_first()[i - 1]);
            }
        }
    }
}

pub proof fn lemma_line_span_len(s: Seq<char>)
    ensures
        line_span(s) <= s.len(),
        forall|i: int| 0 <= i < line_span(s) ==> #[trigger] s[i] != '\n',
        line_span(s) < s.len() ==> s[line_span(s) as int] == '\n',
    decreases s.len(),
{
    if s.len() > 0 && s[0] != '\n' {
        lemma_line_span_len(s.drop_first());
        assert forall|i: int| 0 <= i < line_span(s) implies #[trigger] s[i] != '\n' by {
            if i > 0 {
                assert(s[i] == s.drop_first()[i - 1]);
            }
        }
    }
}

pub proof fn lemma_scan_double_len(s: Seq<char>, line: int)
    ensures
        scan_double(s, line) matches Some((v, rest, l)) ==> rest.len() < s.len() && rest == s.skip(
            s.len() - rest.len(),
        ) && line <= l && l - line <= s.len() - rest.len(),
    decreases s.len(),
{
    if s.len() > 0 && s[0] != '"' {
        if s[0] == '\\' {
            if s.len() >= 2 {
                lemma_scan_double_len(s.skip(2), if s[1] == '\n' { line + 1 } else { line });
                if let Some((v, rest, l)) = scan_double(s, line) {
                    assert(s.skip(2).skip(s.skip(2).len() - rest.len()) =~= s.skip(s.len() - rest.len()));
                }
            }
        } else {
            lemma_scan_double_len(s.drop_first(), if s[0] == '\n' { line + 1 } else { line });
            if let Some((v, rest, l)) = scan_double(s, line) {
                assert(s.drop_first().skip(s.drop_first().len() - rest.len()) =~= s.skip(s.len() - rest.len()));
            }
        }
    } else if s.len() > 0 {
        assert(s.drop_first() =~= s.skip(1));
    }
}

pub proof fn lemma_scan_single_len(s: Seq<char>, line: int)
    ensures
        scan_single(s, line) matches Some((v, rest, l)) ==> rest.len() < s.len() && rest == s.skip(
            s.len() - rest.len(),
        ) && line <= l && l - line <= s.len() - rest.len(),
    decreases s.len(),
{
    if s.len() > 0 && s[0] != '\'' {
        lemma_scan_single_len(s.drop_first(), if s[0] == '\n' { line + 1 } else { line });
        if let Some((v, rest, l)) = scan_single(s, line) {
            assert(s.drop_first().skip(s.drop_first().len() - rest.len()) =~= s.skip(s.len() - rest.len()));
        }
    } else if s.len() > 0 {
        assert(s.drop_first() =~= s.skip(1));
    }
}

pub proof fn lemma_scan_entry_len(s: Seq<char>, line: int)
    ensures
        scan_entry(s, line) matches Ok((k, v, rest, l)) ==> rest.len() < s.len() && rest == s.skip(
            s.len() - rest.len(),
        ) && line <= l && l - line <= s.len() - rest.len(),
{
    let s1 = if starts_with_word(s, export_word()) {
        skip_blanks(s.skip(6))
    } else {
        s
    };
    if starts_with_word(s, export_word()) {
        lemma_skip_blanks_len(s.skip(6));
        assert(s.skip(6).skip(s.skip(6).len() - s1.len()) =~= s.skip(s.len() - s1.len()));
    } else {
        assert(s.skip(0) =~= s);
    }
    lemma_key_span_len(s1);
    let n = key_span(s1);
    if n < s1.len() && s1[n as int] != '\n' {
        let s2 = skip_blanks(s1.skip(n + 1int));
        lemma_skip_blanks_len(s1.skip(n + 1int));
        assert(s1.skip(n + 1int).skip(s1.skip(n + 1int).len() - s2.len()) =~= s1.skip(s1.len() - s2.len()));
        assert(s1.skip(s1.len() - s2.len()) =~= s.skip(s.len() - s2.len()));
        if s2.len() > 0 && s2[0] == '"' {
            lemma_scan_double_len(s2.drop_first(), line);
            if let Some((v, rest, l)) = scan_double(s2.drop_first(), line) {
                assert(s2.drop_first().skip(s2.drop_first().len() - rest.len()) =~= s.skip(s.len() - rest.len()));
            }
        } else if s2.len() > 0 && s2[0] == '\'' {
            lemma_scan_single_len(s2.drop_first(), line);
            if let Some((v, rest, l)) = scan_single(s2.drop_first(), line) {
                assert(s2.drop_first().skip(s2.drop_first().len() - rest.len()) =~= s.skip(s.len() - rest.len()));
            }
        } else {
            lemma_line_span_len(s2);
            let m = line_span(s2);
            assert(s2.skip(m as int) =~= s.skip(s.len() - (s2.len() - m)));
        }
    }
}

// ---------------------------------------------------------------------------
// Reading.

/// A parse failure, with the line it occurred on. Carries no file path so the
/// parser stays independent of the filesystem; the caller supplies the path.
#[derive(Debug, PartialEq, Eq)]
pub struct ParseError {
    pub line: usize,
    pub reason: String,
}

fn err<T>(line: usize, reason: &str) -> (r: Result<T, ParseError>)
    ensures
        r matches Err(e) && e.line == line && e.reason@ == reason@,
{
    Err(ParseError { line, reason: String::from_str(reason) })
}

proof fn lemma_skip_next(c: Seq<char>, j: int)
    requires
        0 <= j < c.len(),
    ensures
        c.skip(j).len() > 0,
        c.skip(j)[0] == c[j],
        c.skip(j).drop_first() == c.skip(j + 1),
        c.skip(j).skip(1) == c.skip(j + 1),
{
    assert(c.skip(j).drop_first() =~= c.skip(j + 1));
    assert(c.skip(j).skip(1) =~= c.skip(j + 1));
}

fn skip_space_at(c: &Vec<char>, i: usize, line: usize) -> (r: (usize, usize))
    requires
        i <= c@.len() < usize::MAX,
        line <= i + 1,
    ensures
        i <= r.0 <= c@.len(),
        line <= r.1 <= r.0 + 1,
        skip_space(c@.skip(i as int), line as int) == (c@.skip(r.0 as int), r.1 as int),
{
    let mut j = i;
    let mut l = line;
    while j < c.len() && white_space(c[j])
        invariant
            i <= j <= c@.len() < usize::MAX,
            line <= l <= j + 1,
            skip_space(c@.skip(i as int), line as int) == skip_space(c@.skip(j as int), l as int),
        decreases c.len() - j,
    {
        proof {
            lemma_skip_next(c@, j as int);
        }
        if c[j] == '\n' {
            l = l + 1;
        }
        j = j + 1;
    }
    if j < c.len() {
        proof {
            lemma_skip_next(c@, j as int);
        }
    }
    (j, l)
}

fn skip_comment_at(c: &Vec<char>, i: usize) -> (r: usize)
    requires
        i <= c@.len(),
    ensures
        i <= r <= c@.len(),
        skip_comment(c@.skip(i as int)) == c@.skip(r as int),
{
    let mut j = i;
    while j < c.len() && c[j] != '\n'
        invariant
            i <= j <= c@.len(),
            skip_comment(c@.skip(i as int)) == skip_comment(c@.skip(j as int)),
        decreases c.len() - j,
    {
        proof {
            lemma_skip_next(c@, j as int);
        }
        j = j + 1;
    }
    if j < c.len() {
        proof {
            lemma_skip_next(c@, j as int);
        }
    }
    j
}

fn skip_blanks_at(c: &Vec<char>, i: usize) -> (r: usize)
    requires
        i <= c@.len(),
    ensures
        i <= r <= c@.len(),
        skip_blanks(c@.skip(i as int)) == c@.skip(r as int),
{
    let mut j = i;
    while j < c.len() && (c[j] == ' ' || c[j] == '\t')
        invariant
            i <= j <= c@.len(),
            skip_blanks(c@.skip(i as int)) == skip_blanks(c@.skip(j as int)),
        decreases c.len() - j,
    {
        proof {
            lemma_skip_next(c@, j as int);
        }
        j = j + 1;
    }
    if j < c.len() {
        proof {
            lemma_skip_next(c@, j as int);
        }
    }
    j
}

/// True when `word` sits at `i` and is followed by a space or tab, so that
/// `export FOO=1` is a prefix but `EXPORTED=1` is a key.
fn word_at(c: &[char], i: usize, word: &str) -> (r: bool)
    requires
        i <= c@.len(),
    ensures
        r == starts_with_word(c@.skip(i as int), word@),
{
    let w = to_chars(word);
    let ghost s = c@.skip(i as int);
    if w.len() >= c.len() - i {
        return false;
    }
    let mut k: usize = 0;
    while k < w.len()
        invariant
            i + w@.len() < c@.len(),
            c@.len() == c.len(),
            w@ == word@,
            k <= w@.len(),
            s == c@.skip(i as int),
            s.take(k as int) == w@.take(k as int),
        decreases w.len() - k,
    {
        assert(i + k < c.len());
        if c[i + k] != w[k] {
            assert(s.take(w@.len() as int)[k as int] == c@[i + k]);
            assert(s.take(w@.len() as int)[k as int] != w@[k as int]);
            return false;
        }
        assert(s.take(k + 1) =~= s.take(k as int).push(s[k as int]));
        assert(w@.take(k + 1) =~= w@.take(k as int).push(w@[k as int]));
        k = k + 1;
    }
    assert(w@.take(w@.len() as int) =~= w@);
    let next = c[i + w.len()];
    next == ' ' || next == '\t'
}

fn key_end_at(c: &Vec<char>, i: usize) -> (r: usize)
    requires
        i <= c@.len(),
    ensures
        r == i + key_span(c@.skip(i as int)),
        r <= c@.len(),
{
    let mut j = i;
    while j < c.len() && c[j] != '=' && c[j] != '\n'
        invariant
            i <= j <= c@.len(),
            key_span(c@.skip(i as int)) == (j - i) + key_span(c@.skip(j as int)),
        decreases c.len() - j,
    {
        proof {
            lemma_skip_next(c@, j as int);
        }
        j = j + 1;
    }
    if j < c.len() {
        proof {
            lemma_skip_next(c@, j as int);
        }
    }
    j
}

fn line_end_at(c: &Vec<char>, i: usize) -> (r: usize)
    requires
        i <= c@.len(),
    ensures
        r == i + line_span(c@.skip(i as int)),
        r <= c@.len(),
{
    let mut j = i;
    while j < c.len() && c[j] != '\n'
        invariant
            i <= j <= c@.len(),
            line_span(c@.skip(i as int)) == (j - i) + line_span(c@.skip(j as int)),
        decreases c.len() - j,
    {
        proof {
            lemma_skip_next(c@, j as int);
        }
        j = j + 1;
    }
    if j < c.len() {
        proof {
            lemma_skip_next(c@, j as int);
        }
    }
    j
}

/// The start of `c[from..to]` with leading white space removed.
pub(crate) fn trim_start_at(c: &Vec<char>, from: usize, to: usize) -> (r: usize)
    requires
        from <= to <= c@.len(),
    ensures
        from <= r <= to,
        trim_start(c@.subrange(from as int, to as int)) == c@.subrange(r as int, to as int),
{
    let mut a = from;
    while a < to && white_space(c[a])
        invariant
            from <= a <= to <= c@.len(),
            trim_start(c@.subrange(from as int, to as int)) == trim_start(c@.subrange(a as int, to as int)),
        decreases to - a,
    {
        assert(c@.subrange(a as int, to as int).drop_first() =~= c@.subrange(a + 1, to as int));
        a = a + 1;
    }
    a
}

/// The end of `c[from..to]` with trailing white space removed.
pub(crate) fn trim_end_at(c: &Vec<char>, from: usize, to: usize) -> (r: usize)
    requires
        from <= to <= c@.len(),
    ensures
        from <= r <= to,
        trim_end(c@.subrange(from as int, to as int)) == c@.subrange(from as int, r as int),
{
    let mut b = to;
    while b > from && white_space(c[b - 1])
        invariant
            from <= b <= to <= c@.len(),
            trim_end(c@.subrange(from as int, to as int)) == trim_end(c@.subrange(from as int, b as int)),
        decreases b,
    {
        assert(c@.subrange(from as int, b as int).drop_last() =~= c@.subrange(from as int, b - 1));
        b = b - 1;
    }
    b
}

/// A scan result with `prefix` already read in front of it.
pub open spec fn after_prefix(prefix: Seq<char>, r: Option<(Seq<char>, Seq<char>, int)>) -> Option<(Seq<char>, Seq<char>, int)> {
    match r {
        Some((v, rest, l)) => Some((prefix + v, rest, l)),
        None => None,
    }
}

/// Reads a double-quoted value whose opening quote ends before `i`.
fn scan_double_at(c: &Vec<char>, i: usize, line: usize) -> (r: Option<(String, usize, usize)>)
    requires
        i <= c@.len() < usize::MAX,
        line <= i + 1,
    ensures
        match scan_double(c@.skip(i as int), line as int) {
            Some((v, rest, l)) => r matches Some((vs, j, l2)) && vs@ == v && rest == c@.skip(j as int)
                && l2 == l && i < j <= c@.len() && l2 <= j + 1,
            None => r is None,
        },
{
    let mut v = String::new();
    let mut k = i;
    let mut l = line;
    proof {
        if let Some((w, rest, l3)) = scan_double(c@.skip(i as int), line as int) {
            assert(Seq::<char>::empty() + w =~= w);
        }
    }
    loop
        invariant
            i <= k <= c@.len() < usize::MAX,
            l <= k + 1,
            scan_double(c@.skip(i as int), line as int) == after_prefix(v@, scan_double(c@.skip(k as int), l as int)),
        decreases c.len() - k,
    {
        if k >= c.len() {
            return None;
        }
        proof {
            lemma_skip_next(c@, k as int);
            lemma_scan_double_len(c@.skip(k as int), l as int);
        }
        let ch = c[k];
        if ch == '"' {
            assert(v@ + seq![] =~= v@);
            return Some((v, k + 1, l));
        } else if ch == '\\' {
            if k + 1 >= c.len() {
                return None;
            }
            let e = c[k + 1];
            let ghost before = v@;
            let ghost l_next: int = if e == '\n' { l + 1 } else { l as int };
            if e == 'n' {
                v.push('\n');
            } else if e == 't' {
                v.push('\t');
            } else if e == 'r' {
                v.push('\r');
            } else if e == '"' {
                v.push('"');
            } else if e == '\'' {
                v.push('\'');
            } else if e == '\\' {
                v.push('\\');
            } else if e == '\n' {
                // A backslash before a newline continues the line.
                l = l + 1;
            } else {
                v.push('\\');
                v.push(e);
            }
            proof {
                assert(v@ =~= before + escape_value(e));
                assert(c@.skip(k as int).skip(2) =~= c@.skip(k + 2));
                assert(c@.skip(k as int)[1] == e);
                lemma_scan_double_len(c@.skip(k + 2), l_next);
                if let Some((w, rest, l3)) = scan_double(c@.skip(k + 2), l_next) {
                    assert(before + (escape_value(e) + w) =~= (before + escape_value(e)) + w);
                }
            }
            k = k + 2;
        } else {
            let ghost before = v@;
            if ch == '\n' {
                l = l + 1;
            }
            v.push(ch);
            proof {
                lemma_scan_double_len(c@.skip(k + 1), l as int);
                if let Some((w, rest, l3)) = scan_double(c@.skip(k + 1), l as int) {
                    assert(before + (seq![ch] + w) =~= (before + seq![ch]) + w);
                }
            }
            k = k + 1;
        }
    }
}

/// Reads a single-quoted value whose opening quote ends before `i`.
fn scan_single_at(c: &Vec<char>, i: usize, line: usize) -> (r: Option<(String, usize, usize)>)
    requires
        i <= c@.len() < usize::MAX,
        line <= i + 1,
    ensures
        match scan_single(c@.skip(i as int), line as int) {
            Some((v, rest, l)) => r matches Some((vs, j, l2)) && vs@ == v && rest == c@.skip(j as int)
                && l2 == l && i < j <= c@.len() && l2 <= j + 1,
            None => r is None,
        },
{
    let mut v = String::new();
    let mut k = i;
    let mut l = line;
    proof {
        if let Some((w, rest, l3)) = scan_single(c@.skip(i as int), line as int) {
            assert(Seq::<char>::empty() + w =~= w);
        }
    }
    loop
        invariant
            i <= k <= c@.len() < usize::MAX,
            l <= k + 1,
            scan_single(c@.skip(i as int), line as int) == after_prefix(v@, scan_single(c@.skip(k as int), l as int)),
        decreases c.len() - k,
    {
        if k >= c.len() {
            return None;
        }
        proof {
            lemma_skip_next(c@, k as int);
        }
        let ch = c[k];
        if ch == '\'' {
            assert(v@ + seq![] =~= v@);
            return Some((v, k + 1, l));
        }
        let ghost before = v@;
        if ch == '\n' {
            l = l + 1;
        }
        v.push(ch);
        proof {
            if let Some((w, rest, l3)) = scan_single(c@.skip(k + 1), l as int) {
                assert(before + (seq![ch] + w) =~= (before + seq![ch]) + w);
            }
        }
        k = k + 1;
    }
}

/// Reads the entry whose first character is at `j`, on line `line`.
fn parse_entry_at(c: &Vec<char>, j: usize, line: usize) -> (r: Result<(String, String, usize, usize), ParseError>)
    requires
        j < c@.len() < usize::MAX,
        line <= j + 1,
    ensures
        match scan_entry(c@.skip(j as int), line as int) {
            Ok((k, v, rest, l)) => r matches Ok((ks, vs, next, l2)) && ks@ == k && vs@ == v && rest
                == c@.skip(next as int) && l2 == l && j < next <= c@.len() && l2 <= next + 1,
            Err(reason) => r matches Err(e) && e.line == line && e.reason@ == reason,
        },
{
    let ghost s = c@.skip(j as int);
    let mut i = j;
    proof {
        reveal_strlit("export");
        assert("export"@ =~= export_word());
    }
    if word_at(c.as_slice(), i, "export") {
        i = skip_blanks_at(c, i + 6);
        proof {
            assert(s.skip(6) =~= c@.skip(j + 6));
        }
    }
    let ghost s1 = c@.skip(i as int);
    assert(s1 == if starts_with_word(s, export_word()) { skip_blanks(s.skip(6)) } else { s });
    let key_end = key_end_at(c, i);
    proof {
        lemma_key_span_len(s1);
    }
    if key_end >= c.len() || c[key_end] == '\n' {
        return err(line, "expected KEY=VALUE");
    }
    assert(s1[key_end - i] == c@[key_end as int]);
    let a = trim_start_at(c, i, key_end);
    let b = trim_end_at(c, a, key_end);
    let key = string_from_range(c, a, b);
    proof {
        assert(s1.take(key_end - i) =~= c@.subrange(i as int, key_end as int));
        assert(s1.skip(key_end - i + 1) =~= c@.skip(key_end + 1));
    }
    let p = skip_blanks_at(c, key_end + 1);
    let ghost s2 = c@.skip(p as int);
    if p < c.len() {
        proof {
            lemma_skip_next(c@, p as int);
        }
    }
    let value: String;
    let next: usize;
    let l2: usize;
    if p < c.len() && c[p] == '"' {
        match scan_double_at(c, p + 1, line) {
            Some((v, n, l)) => {
                value = v;
                next = n;
                l2 = l;
            },
            None => {
                return err(line, "unterminated double-quoted value");
            },
        }
    } else if p < c.len() && c[p] == '\'' {
        match scan_single_at(c, p + 1, line) {
            Some((v, n, l)) => {
                value = v;
                next = n;
                l2 = l;
            },
            None => {
                return err(line, "unterminated single-quoted value");
            },
        }
    } else {
        let e = line_end_at(c, p);
        let b2 = trim_end_at(c, p, e);
        value = string_from_range(c, p, b2);
        next = e;
        l2 = line;
        proof {
            assert(s2.take(e - p) =~= c@.subrange(p as int, e as int));
            assert(s2.skip(e - p) =~= c@.skip(e as int));
        }
    }
    match validate_key(key.as_str()) {
        Ok(()) => Ok((key, value, next, l2)),
        Err(_) => {
            let mut reason = String::from_str("invalid variable name ");
            reason.append(debug_quote(key.as_str()).as_str());
            Err(ParseError { line, reason })
        },
    }
}

/// Reads the document, following `parse_doc` step by step.
fn parse_document(text: &str) -> (res: Result<Vec<(String, String)>, ParseError>)
    requires
        text@.len() < usize::MAX,
    ensures
        match parse_doc(text@, 1) {
            Ok(entries) => res matches Ok(v) && entry_views(v@) == entries,
            Err((line, reason)) => res matches Err(e) && e.line == line && e.reason@ == reason,
        },
{
    let c = to_chars(text);
    let mut i: usize = 0;
    let mut line: usize = 1;
    let mut out: Vec<(String, String)> = Vec::new();
    assert(c@.skip(0) =~= c@);
    proof {
        if let Ok(entries) = parse_doc(c@, 1) {
            assert(entry_views(out@) + entries =~= entries);
        }
    }
    loop
        invariant
            i <= c@.len() < usize::MAX,
            1 <= line <= i + 1,
            c@ == text@,
            parse_doc(text@, 1) == after_entries(entry_views(out@), parse_doc(c@.skip(i as int), line as int)),
        decreases c.len() - i,
    {
        let ghost before = entry_views(out@);
        let (j, l) = skip_space_at(&c, i, line);
        if j >= c.len() {
            assert(before + seq![] =~= before);
            return Ok(out);
        }
        proof {
            lemma_skip_next(c@, j as int);
        }
        if c[j] == '#' {
            // A comment runs to the end of its line.
            let k = skip_comment_at(&c, j);
            proof {
                lemma_skip_comment_len(c@.skip(j as int));
            }
            i = k;
            line = l;
        } else {
            match parse_entry_at(&c, j, l) {
                Err(e) => {
                    return Err(e);
                },
                Ok((key, value, next, l2)) => {
                    let ghost kv = (key@, value@);
                    out.push((key, value));
                    proof {
                        lemma_scan_entry_len(c@.skip(j as int), l as int);
                        assert(entry_views(out@) =~= before.push(kv));
                        if let Ok(entries) = parse_doc(c@.skip(next as int), l2 as int) {
                            assert(before + (seq![kv] + entries) =~= before.push(kv) + entries);
                        }
                    }
                    i = next;
                    line = l2;
                },
            }
        }
    }
}


/// Parses a `.env` document into ordered key/value pairs.
pub fn parse(text: &str) -> (res: Result<Vec<(String, String)>, ParseError>)
    requires
        text@.len() < usize::MAX,
    ensures
        match parse_doc(text@, 1) {
            Ok(entries) => res matches Ok(v) && entry_views(v@) == entries,
            Err((line, reason)) => res matches Err(e) && e.line == line && e.reason@ == reason,
        },
        res matches Ok(v) ==> forall|i: int| 0 <= i < v@.len() ==> clean_key(#[trigger] v@[i].0@),
        res matches Err(e) ==> 1 <= e.line <= newlines(text@) + 1,
{
    let res = parse_document(text);
    proof {
        law_parse_gives_clean_keys(text@);
        if res is Ok {
            let v = res->Ok_0;
            assert forall|i: int| 0 <= i < v@.len() implies clean_key(#[trigger] v@[i].0@) by {
                assert(entry_views(v@)[i].0 == v@[i].0@);
            }
        }
    }
    res
}

// ---------------------------------------------------------------------------
// Writing.

/// How `format` writes one character of a value inside double quotes.
pub open spec fn escape_char(ch: char) -> Seq<char> {
    if ch == '\\' {
        seq!['\\', '\\']
    } else if ch == '"' {
        seq!['\\', '"']
    } else if ch == '\n' {
        seq!['\\', 'n']
    } else if ch == '\t' {
        seq!['\\', 't']
    } else if ch == '\r' {
        seq!['\\', 'r']
    } else {
        seq![ch]
    }
}

/// A value with every character escaped.
pub open spec fn escaped(v: Seq<char>) -> Seq<char>
    decreases v.len(),
{
    if v.len() == 0 {
        seq![]
    } else {
        escape_char(v[0]) + escaped(v.drop_first())
    }
}

/// One line of a `.env` document: the key, `=`, and the quoted value.
pub open spec fn entry_text(key: Seq<char>, value: Seq<char>) -> Seq<char> {
    key + seq!['=', '"'] + escaped(value) + seq!['"', '\n']
}

/// The `.env` document holding `pairs`, one line each, in order.
pub open spec fn dotenv_text(pairs: Seq<(Seq<char>, Seq<char>)>) -> Seq<char>
    decreases pairs.len(),
{
    if pairs.len() == 0 {
        seq![]
    } else {
        entry_text(pairs[0].0, pairs[0].1) + dotenv_text(pairs.drop_first())
    }
}

pub proof fn lemma_escaped_append(a: Seq<char>, b: Seq<char>)
    ensures
        escaped(a + b) == escaped(a) + escaped(b),
    decreases a.len(),
{
    if a.len() == 0 {
        assert(a + b =~= b);
        assert(escaped(a) + escaped(b) =~= escaped(b));
    } else {
        lemma_escaped_append(a.drop_first(), b);
        assert((a + b).drop_first() =~= a.drop_first() + b);
        assert((a + b)[0] == a[0]);
        assert(escape_char(a[0]) + (escaped(a.drop_first()) + escaped(b)) =~= (escape_char(a[0])
            + escaped(a.drop_first())) + escaped(b));
    }
}

pub proof fn lemma_dotenv_text_append(a: Seq<(Seq<char>, Seq<char>)>, b: Seq<(Seq<char>, Seq<char>)>)
    ensures
        dotenv_text(a + b) == dotenv_text(a) + dotenv_text(b),
    decreases a.len(),
{
    if a.len() == 0 {
        assert(a + b =~= b);
        assert(dotenv_text(a) + dotenv_text(b) =~= dotenv_text(b));
    } else {
        lemma_dotenv_text_append(a.drop_first(), b);
        assert((a + b).drop_first() =~= a.drop_first() + b);
        assert((a + b)[0] == a[0]);
        let e = entry_text(a[0].0, a[0].1);
        assert(e + (dotenv_text(a.drop_first()) + dotenv_text(b)) =~= (e + dotenv_text(
            a.drop_first(),
        )) + dotenv_text(b));
    }
}

/// Escapes a value for a double-quoted `.env` field. Emits exactly the
/// escapes `parse` understands, which is what makes the two inverses.
fn escape(value: &str) -> (out: String)
    ensures
        out@ == escaped(value@),
{
    let cs = to_chars(value);
    let mut out = String::new();
    let mut i: usize = 0;
    while i < cs.len()
        invariant
            i <= cs@.len(),
            out@ == escaped(cs@.take(i as int)),
        decreases cs.len() - i,
    {
        let ch = cs[i];
        let ghost before = out@;
        if ch == '\\' {
            out.push('\\');
            out.push('\\');
        } else if ch == '"' {
            out.push('\\');
            out.push('"');
        } else if ch == '\n' {
            out.push('\\');
            out.push('n');
        } else if ch == '\t' {
            out.push('\\');
            out.push('t');
        } else if ch == '\r' {
            out.push('\\');
            out.push('r');
        } else {
            out.push(ch);
        }
        proof {
            assert(cs@.take(i + 1) =~= cs@.take(i as int) + seq![ch]);
            lemma_escaped_append(cs@.take(i as int), seq![ch]);
            assert(seq![ch].drop_first() =~= Seq::<char>::empty());
            assert(escaped(seq![ch].drop_first()) =~= Seq::<char>::empty());
            assert(seq![ch][0] == ch);
            assert(escaped(seq![ch]) =~= escape_char(ch) + Seq::<char>::empty());
            assert(escaped(seq![ch]) =~= escape_char(ch));
            assert(out@ =~= before + escape_char(ch));
        }
        i = i + 1;
    }
    assert(cs@.take(cs@.len() as int) =~= cs@);
    out
}

/// Renders key/value pairs as a `.env` document, in the order given.
///
/// Values are always quoted, even when quoting looks unnecessary. Deciding
/// when quotes can be omitted is where a formatter grows bugs, and the output
/// is meant to be re-read by `parse` rather than admired.
pub fn format(pairs: &[(String, String)]) -> (out: String)
    ensures
        out@ == dotenv_text(entry_views(pairs@)),
{
    let mut out = String::new();
    let mut i: usize = 0;
    let ghost views = entry_views(pairs@);
    while i < pairs.len()
        invariant
            i <= pairs@.len(),
            views == entry_views(pairs@),
            out@ == dotenv_text(views.take(i as int)),
        decreases pairs.len() - i,
    {
        let ghost before = out@;
        out.append(pairs[i].0.as_str());
        out.push('=');
        out.push('"');
        out.append(escape(pairs[i].1.as_str()).as_str());
        out.push('"');
        out.push('\n');
        proof {
            let kv = views[i as int];
            assert(views.take(i + 1) =~= views.take(i as int) + seq![kv]);
            lemma_dotenv_text_append(views.take(i as int), seq![kv]);
            assert(seq![kv].drop_first() =~= Seq::<(Seq<char>, Seq<char>)>::empty());
            assert(dotenv_text(seq![kv].drop_first()) =~= Seq::<char>::empty());
            assert(seq![kv][0] == kv);
            assert(dotenv_text(seq![kv]) =~= entry_text(kv.0, kv.1) + Seq::<char>::empty());
            assert(dotenv_text(seq![kv]) =~= entry_text(kv.0, kv.1));
            assert(out@ =~= before + entry_text(kv.0, kv.1));
        }
        i = i + 1;
    }
    assert(views.take(pairs@.len() as int) =~= views);
    out
}

// ---------------------------------------------------------------------------
// Writing then reading gives back what was written.

/// The keys that come back unchanged from `format` then `parse`: valid
/// names without a line break, not starting with `#`, white space or the
/// word `export` and a blank, and not ending in white space.
pub open spec fn round_trip_key(k: Seq<char>) -> bool {
    &&& valid_key(k)
    &&& !k.contains('\n')
    &&& !is_white_space(k[0])
    &&& !is_white_space(k.last())
    &&& k[0] != '#'
    &&& !starts_with_word(k, export_word())
}

proof fn lemma_scan_double_escaped(v: Seq<char>, q: Seq<char>, line: int)
    ensures
        scan_double(escaped(v) + seq!['"'] + q, line) == Some((v, q, line)),
    decreases v.len(),
{
    let s = escaped(v) + seq!['"'] + q;
    if v.len() == 0 {
        assert(s =~= seq!['"'] + q);
        assert(s.drop_first() =~= q);
    } else {
        let ch = v[0];
        let w = v.drop_first();
        lemma_scan_double_escaped(w, q, line);
        let tail = escaped(w) + seq!['"'] + q;
        assert(s =~= escape_char(ch) + tail);
        assert(v =~= seq![ch] + w);
        if ch == '\\' || ch == '"' || ch == '\n' || ch == '\t' || ch == '\r' {
            assert(s[0] == '\\');
            assert(s.skip(2) =~= tail);
            assert(escape_value(s[1]) =~= seq![ch]);
        } else {
            assert(s[0] == ch);
            assert(s.drop_first() =~= tail);
        }
    }
}

proof fn lemma_key_span_prefix(k: Seq<char>, rest: Seq<char>)
    requires
        !k.contains('='),
        !k.contains('\n'),
        rest.len() > 0,
        rest[0] == '=',
    ensures
        key_span(k + rest) == k.len(),
    decreases k.len(),
{
    if k.len() == 0 {
        assert(k + rest =~= rest);
    } else {
        assert(!k.drop_first().contains('=')) by {
            if k.drop_first().contains('=') {
                let i = choose|i: int| 0 <= i < k.drop_first().len() && k.drop_first()[i] == '=';
                assert(k[i + 1] == '=');
            }
        }
        assert(!k.drop_first().contains('\n')) by {
            if k.drop_first().contains('\n') {
                let i = choose|i: int| 0 <= i < k.drop_first().len() && k.drop_first()[i] == '\n';
                assert(k[i + 1] == '\n');
            }
        }
        assert(k[0] != '=' && k[0] != '\n') by {
            assert(k.contains(k[0]));
        }
        lemma_key_span_prefix(k.drop_first(), rest);
        assert((k + rest).drop_first() =~= k.drop_first() + rest);
    }
}

proof fn lemma_scan_entry_text(k: Seq<char>, v: Seq<char>, r: Seq<char>, line: int)
    requires
        round_trip_key(k),
    ensures
        scan_entry(entry_text(k, v) + r, line) == Ok::<(Seq<char>, Seq<char>, Seq<char>, int), Seq<char>>((k, v, seq!['\n'] + r, line)),
{
    let t = entry_text(k, v) + r;
    let y = seq!['"'] + escaped(v) + seq!['"', '\n'] + r;
    assert(t =~= k + (seq!['='] + y));
    let e = export_word();
    if starts_with_word(t, e) {
        if k.len() > 6 {
            assert(t.take(6) =~= k.take(6));
            assert(t[6] == k[6]);
        } else if k.len() == 6 {
            assert(t[6] == '=');
        } else {
            assert(t.take(6)[k.len() as int] == t[k.len() as int]);
            assert(t[k.len() as int] == '=');
        }
    }
    lemma_key_span_prefix(k, seq!['='] + y);
    assert(t[k.len() as int] == '=');
    assert(t.take(k.len() as int) =~= k);
    assert(trim_start(k) == k);
    assert(trim_end(k) == k);
    assert(t.skip(k.len() + 1int) =~= y);
    assert(skip_blanks(y) == y);
    assert(y.drop_first() =~= escaped(v) + seq!['"'] + (seq!['\n'] + r));
    lemma_scan_double_escaped(v, seq!['\n'] + r, line);
}

proof fn lemma_parse_after_line_break(r: Seq<char>, line: int)
    ensures
        parse_doc(seq!['\n'] + r, line) == parse_doc(r, line + 1),
{
    let s = seq!['\n'] + r;
    assert(s.drop_first() =~= r);
    assert(skip_space(s, line) == skip_space(r, line + 1));
}

/// `parse` reads back what `format` wrote, for every list of pairs whose
/// keys are `round_trip_key`s; values may hold any character.
pub proof fn lemma_parse_format(pairs: Seq<(Seq<char>, Seq<char>)>, line: int)
    requires
        forall|i: int| 0 <= i < pairs.len() ==> round_trip_key(#[trigger] pairs[i].0),
    ensures
        parse_doc(dotenv_text(pairs), line) == Ok::<Seq<(Seq<char>, Seq<char>)>, (int, Seq<char>)>(pairs),
    decreases pairs.len(),
{
    let t = dotenv_text(pairs);
    if pairs.len() == 0 {
        assert(skip_space(t, line) == (t, line));
        assert(pairs =~= Seq::<(Seq<char>, Seq<char>)>::empty());
    } else {
        let (k, v) = pairs[0];
        let rest = pairs.drop_first();
        assert(round_trip_key(pairs[0].0));
        assert forall|i: int| 0 <= i < rest.len() implies round_trip_key(#[trigger] rest[i].0) by {
            assert(rest[i] == pairs[i + 1]);
        }
        lemma_parse_format(rest, line + 1);
        let r = dotenv_text(rest);
        assert(t == entry_text(k, v) + r);
        assert(t[0] == k[0]);
        assert(skip_space(t, line) == (t, line));
        lemma_scan_entry_text(k, v, r, line);
        lemma_parse_after_line_break(r, line);
        assert(pairs =~= seq![(k, v)] + rest);
    }
}

/// What `format` writes, `parse` reads back unchanged, when the keys are
/// `round_trip_key`s.
pub proof fn law_parse_reads_back_format(pairs: Seq<(Seq<char>, Seq<char>)>)
    requires
        forall|i: int| 0 <= i < pairs.len() ==> round_trip_key(#[trigger] pairs[i].0),
    ensures
        parse_doc(dotenv_text(pairs), 1) == Ok::<Seq<(Seq<char>, Seq<char>)>, (int, Seq<char>)>(pairs),
{
    lemma_parse_format(pairs, 1);
}

// ---------------------------------------------------------------------------
// What every parse gives.

/// A key as `parse` hands it out: a valid name, on one line, with no white
/// space at either end.
pub open spec fn clean_key(k: Seq<char>) -> bool {
    &&& valid_key(k)
    &&& !k.contains('\n')
    &&& trim_start(k) == k
    &&& trim_end(k) == k
}

proof fn lemma_trim_start_suffix(s: Seq<char>)
    ensures
        trim_start(s).len() <= s.len(),
        trim_start(s) == s.skip(s.len() - trim_start(s).len()),
        trim_start(s).len() > 0 ==> !is_white_space(trim_start(s)[0]),
    decreases s.len(),
{
    if s.len() > 0 && is_white_space(s[0]) {
        lemma_trim_start_suffix(s.drop_first());
        let r = trim_start(s);
        assert(s.drop_first().skip(s.drop_first().len() - r.len()) =~= s.skip(s.len() - r.len()));
    } else {
        assert(s.skip(0) =~= s);
    }
}

proof fn lemma_trim_end_prefix(s: Seq<char>)
    ensures
        trim_end(s).len() <= s.len(),
        trim_end(s) == s.take(trim_end(s).len() as int),
        trim_end(s).len() > 0 ==> !is_white_space(trim_end(s).last()),
    decreases s.len(),
{
    if s.len() > 0 && is_white_space(s.last()) {
        lemma_trim_end_prefix(s.drop_last());
        let r = trim_end(s);
        assert(s.drop_last().take(r.len() as int) =~= s.take(r.len() as int));
    } else {
        assert(s.take(s.len() as int) =~= s);
    }
}

/// Trimming a line-free text at both ends gives a clean text.
proof fn lemma_trimmed_is_clean(x: Seq<char>)
    requires
        !x.contains('\n'),
    ensures
        ({
            let k = trim_end(trim_start(x));
            &&& !k.contains('\n')
            &&& trim_start(k) == k
            &&& trim_end(k) == k
        }),
{
    let y = trim_start(x);
    lemma_trim_start_suffix(x);
    lemma_trim_end_prefix(y);
    let k = trim_end(y);
    let a = x.len() - y.len();
    if k.contains('\n') {
        let i = choose|i: int| 0 <= i < k.len() && k[i] == '\n';
        assert(k[i] == y[i]);
        assert(y[i] == x[a + i]);
        assert(x.contains(x[a + i]));
    }
    if k.len() > 0 {
        assert(k[0] == y[0]);
    }
}

proof fn lemma_scan_entry_key(t: Seq<char>, line: int)
    ensures
        scan_entry(t, line) matches Ok((k, v, rest, l)) ==> clean_key(k),
{
    let s1 = if starts_with_word(t, export_word()) {
        skip_blanks(t.skip(6))
    } else {
        t
    };
    lemma_key_span_len(s1);
    let n = key_span(s1);
    let x = s1.take(n as int);
    if x.contains('\n') {
        let i = choose|i: int| 0 <= i < x.len() && x[i] == '\n';
        assert(s1[i] != '\n');
    }
    lemma_trimmed_is_clean(x);
}

/// Every key of a parsed document is a clean key.
pub proof fn lemma_parse_doc_keys(s: Seq<char>, line: int)
    ensures
        parse_doc(s, line) matches Ok(entries) ==> forall|i: int| 0 <= i < entries.len() ==> clean_key(#[trigger] entries[i].0),
    decreases s.len(),
{
    let (t, l) = skip_space(s, line);
    lemma_skip_space_len(s, line);
    if t.len() == 0 {
    } else if t[0] == '#' {
        lemma_skip_comment_len(t);
        lemma_parse_doc_keys(skip_comment(t), l);
    } else {
        lemma_scan_entry_key(t, l);
        lemma_scan_entry_len(t, l);
        if let Ok((key, value, rest, l2)) = scan_entry(t, l) {
            lemma_parse_doc_keys(rest, l2);
            if let Ok(entries) = parse_doc(rest, l2) {
                let all = seq![(key, value)] + entries;
                assert forall|i: int| 0 <= i < all.len() implies clean_key(#[trigger] all[i].0) by {
                    if i > 0 {
                        assert(all[i] == entries[i - 1]);
                    }
                }
            }
        }
    }
}

/// The number of line breaks in `s`.
pub open spec fn newlines(s: Seq<char>) -> nat
    decreases s.len(),
{
    if s.len() == 0 {
        0
    } else {
        (if s[0] == '\n' { 1nat } else { 0nat }) + newlines(s.drop_first())
    }
}

proof fn lemma_newlines_split(s: Seq<char>, k: int)
    requires
        0 <= k <= s.len(),
    ensures
        newlines(s) == newlines(s.take(k)) + newlines(s.skip(k)),
    decreases k,
{
    if k == 0 {
        assert(s.skip(0) =~= s);
        assert(s.take(0).len() == 0);
    } else {
        lemma_newlines_split(s.drop_first(), k - 1);
        assert(s.take(k).drop_first() =~= s.drop_first().take(k - 1));
        assert(s.drop_first().skip(k - 1) =~= s.skip(k));
        assert(s.take(k)[0] == s[0]);
    }
}

proof fn lemma_newlines_none(s: Seq<char>)
    requires
        forall|i: int| 0 <= i < s.len() ==> #[trigger] s[i] != '\n',
    ensures
        newlines(s) == 0,
    decreases s.len(),
{
    if s.len() > 0 {
        assert(s[0] != '\n');
        assert forall|i: int| 0 <= i < s.drop_first().len() implies #[trigger] s.drop_first()[i] != '\n' by {
            assert(s.drop_first()[i] == s[i + 1]);
        }
        lemma_newlines_none(s.drop_first());
    }
}

proof fn lemma_skip_space_lines(s: Seq<char>, line: int)
    ensures
        skip_space(s, line).1 == line + newlines(s) - newlines(skip_space(s, line).0),
        newlines(skip_space(s, line).0) <= newlines(s),
    decreases s.len(),
{
    if s.len() > 0 && is_white_space(s[0]) {
        lemma_skip_space_lines(s.drop_first(), if s[0] == '\n' { line + 1 } else { line });
    }
}

proof fn lemma_skip_comment_lines(s: Seq<char>)
    ensures
        newlines(skip_comment(s)) == newlines(s),
    decreases s.len(),
{
    if s.len() > 0 && s[0] != '\n' {
        lemma_skip_comment_lines(s.drop_first());
    }
}

proof fn lemma_skip_blanks_lines(s: Seq<char>)
    ensures
        newlines(skip_blanks(s)) == newlines(s),
    decreases s.len(),
{
    if s.len() > 0 && is_blank(s[0]) {
        lemma_skip_blanks_lines(s.drop_first());
    }
}

proof fn lemma_scan_double_lines(s: Seq<char>, line: int)
    ensures
        scan_double(s, line) matches Some((v, rest, l)) ==> l == line + newlines(s) - newlines(rest) && newlines(
            rest,
        ) <= newlines(s),
    decreases s.len(),
{
    if s.len() > 0 && s[0] != '"' {
        if s[0] == '\\' {
            if s.len() >= 2 {
                lemma_scan_double_lines(s.skip(2), if s[1] == '\n' { line + 1 } else { line });
                assert(s.drop_first().drop_first() =~= s.skip(2));
                assert(s.drop_first()[0] == s[1]);
                assert(newlines(s) == newlines(s.drop_first()));
                assert(newlines(s.drop_first()) == (if s[1] == '\n' { 1nat } else { 0nat }) + newlines(s.skip(2)));
            }
        } else {
            lemma_scan_double_lines(s.drop_first(), if s[0] == '\n' { line + 1 } else { line });
        }
    }
}

proof fn lemma_scan_single_lines(s: Seq<char>, line: int)
    ensures
        scan_single(s, line) matches Some((v, rest, l)) ==> l == line + newlines(s) - newlines(rest) && newlines(
            rest,
        ) <= newlines(s),
    decreases s.len(),
{
    if s.len() > 0 && s[0] != '\'' {
        lemma_scan_single_lines(s.drop_first(), if s[0] == '\n' { line + 1 } else { line });
    }
}

proof fn lemma_scan_entry_lines(t: Seq<char>, line: int)
    ensures
        scan_entry(t, line) matches Ok((k, v, rest, l)) ==> l == line + newlines(t) - newlines(rest) && newlines(
            rest,
        ) <= newlines(t),
{
    let s1 = if starts_with_word(t, export_word()) {
        skip_blanks(t.skip(6))
    } else {
        t
    };
    if starts_with_word(t, export_word()) {
        lemma_newlines_split(t, 6);
        assert forall|i: int| 0 <= i < t.take(6).len() implies #[trigger] t.take(6)[i] != '\n' by {
            assert(t.take(6)[i] == export_word()[i]);
        }
        lemma_newlines_none(t.take(6));
        lemma_skip_blanks_lines(t.skip(6));
    }
    assert(newlines(s1) == newlines(t));
    lemma_key_span_len(s1);
    let n = key_span(s1);
    if n < s1.len() && s1[n as int] != '\n' {
        lemma_newlines_split(s1, n + 1int);
        assert forall|i: int| 0 <= i < s1.take(n + 1int).len() implies #[trigger] s1.take(n + 1int)[i] != '\n' by {
            assert(s1.take(n + 1int)[i] == s1[i]);
        }
        lemma_newlines_none(s1.take(n + 1int));
        let s2 = skip_blanks(s1.skip(n + 1int));
        lemma_skip_blanks_lines(s1.skip(n + 1int));
        assert(newlines(s2) == newlines(t));
        if s2.len() > 0 && s2[0] == '"' {
            lemma_scan_double_lines(s2.drop_first(), line);
        } else if s2.len() > 0 && s2[0] == '\'' {
            lemma_scan_single_lines(s2.drop_first(), line);
        } else {
            lemma_line_span_len(s2);
            let m = line_span(s2);
            lemma_newlines_split(s2, m as int);
            assert forall|i: int| 0 <= i < s2.take(m as int).len() implies #[trigger] s2.take(m as int)[i] != '\n' by {
                assert(s2.take(m as int)[i] == s2[i]);
            }
            lemma_newlines_none(s2.take(m as int));
        }
    }
}

/// A failure is reported on a line of the document.
pub proof fn lemma_parse_doc_lines(s: Seq<char>, line: int)
    ensures
        parse_doc(s, line) matches Err((l, reason)) ==> line <= l <= line + newlines(s),
    decreases s.len(),
{
    let (t, l) = skip_space(s, line);
    lemma_skip_space_len(s, line);
    lemma_skip_space_lines(s, line);
    if t.len() == 0 {
    } else if t[0] == '#' {
        lemma_skip_comment_len(t);
        lemma_skip_comment_lines(t);
        lemma_parse_doc_lines(skip_comment(t), l);
    } else {
        lemma_scan_entry_len(t, l);
        lemma_scan_entry_lines(t, l);
        if let Ok((key, value, rest, l2)) = scan_entry(t, l) {
            lemma_parse_doc_lines(rest, l2);
        }
    }
}

/// Every parse of a document gives clean keys, or fails on one of the
/// document's lines.
pub proof fn law_parse_gives_clean_keys(s: Seq<char>)
    ensures
        match parse_doc(s, 1) {
            Ok(entries) => forall|i: int| 0 <= i < entries.len() ==> clean_key(#[trigger] entries[i].0),
            Err((l, reason)) => 1 <= l <= newlines(s) + 1,
        },
{
    lemma_parse_doc_keys(s, 1);
    lemma_parse_doc_lines(s, 1);
}

/// An escaped value stays on one line: it holds no line feed, carriage
/// return or tab.
pub proof fn law_escaped_is_one_line(v: Seq<char>)
    ensures
        !escaped(v).contains('\n'),
        !escaped(v).contains('\r'),
        !escaped(v).contains('\t'),
    decreases v.len(),
{
    if v.len() > 0 {
        law_escaped_is_one_line(v.drop_first());
        let a = escape_char(v[0]);
        let b = escaped(v.drop_first());
        assert(escaped(v) == a + b);
        assert forall|c: char| (c == '\n' || c == '\r' || c == '\t') implies !(a + b).contains(c) by {
            if (a + b).contains(c) {
                let i = choose|i: int| 0 <= i < (a + b).len() && (a + b)[i] == c;
                if i >= a.len() {
                    assert(b[i - a.len()] == c);
                    assert(b.contains(c));
                }
            }
        }
    }
}

/// Inside double quotes an escaped value reads back as itself: its first
/// unescaped quote is the one written after it.
pub proof fn law_escaped_reads_back(v: Seq<char>, rest: Seq<char>, line: int)
    ensures
        scan_double(escaped(v) + seq!['"'] + rest, line) == Some((v, rest, line)),
{
    lemma_scan_double_escaped(v, rest, line);
}

/// An unquoted value is the rest of its line, whatever its first character:
/// a line `k=v` with `v` on one line, not starting with a quote or a blank
/// and not ending in white space, reads as exactly the pair `(k, v)`. In
/// particular a `#` in or at the start of `v` is kept.
pub proof fn law_unquoted_value_is_the_rest_of_the_line(k: Seq<char>, v: Seq<char>)
    requires
        round_trip_key(k),
        forall|i: int| 0 <= i < v.len() ==> #[trigger] v[i] != '\n',
        v.len() > 0 ==> v[0] != '"' && v[0] != '\'' && v[0] != ' ' && v[0] != '\t',
        v.len() > 0 ==> !is_white_space(v.last()),
    ensures
        parse_doc(k + seq!['='] + v + seq!['\n'], 1) == Ok::<Seq<(Seq<char>, Seq<char>)>, (int, Seq<char>)>(
            seq![(k, v)],
        ),
{
    let y = v + seq!['\n'];
    let t = k + seq!['='] + v + seq!['\n'];
    assert(t =~= k + (seq!['='] + y));
    let e = export_word();
    if starts_with_word(t, e) {
        if k.len() > 6 {
            assert(t.take(6) =~= k.take(6));
            assert(t[6] == k[6]);
        } else if k.len() == 6 {
            assert(t[6] == '=');
        } else {
            assert(t.take(6)[k.len() as int] == t[k.len() as int]);
            assert(t[k.len() as int] == '=');
        }
    }
    lemma_key_span_prefix(k, seq!['='] + y);
    assert(t[k.len() as int] == '=');
    assert(t.take(k.len() as int) =~= k);
    assert(t.skip(k.len() + 1int) =~= y);
    assert(skip_blanks(y) == y) by {
        assert(y[0] == if v.len() > 0 { v[0] } else { '\n' });
    }
    lemma_line_span_len(y);
    let n = line_span(y);
    assert forall|i: int| 0 <= i < v.len() implies #[trigger] y[i] != '\n' by {
        assert(y[i] == v[i]);
    }
    assert(y[v.len() as int] == '\n');
    if n < v.len() {
        assert(y[n as int] == '\n');
    }
    assert(n == v.len());
    assert(y.take(n as int) =~= v);
    assert(trim_end(v) == v);
    assert(y.skip(n as int) =~= seq!['\n']);
    assert(t[0] == k[0]);
    assert(skip_space(t, 1) == (t, 1int));
    assert(scan_entry(t, 1) == Ok::<(Seq<char>, Seq<char>, Seq<char>, int), Seq<char>>((k, v, seq!['\n'], 1)));
    let nl = seq!['\n'];
    assert(skip_space(nl, 1) == skip_space(nl.drop_first(), 2));
    assert(nl.drop_first() =~= Seq::<char>::empty());
    assert(parse_doc(nl, 1) == Ok::<Seq<(Seq<char>, Seq<char>)>, (int, Seq<char>)>(seq![]));
    assert(seq![(k, v)] + Seq::<(Seq<char>, Seq<char>)>::empty() =~= seq![(k, v)]);
}

} // verus!
