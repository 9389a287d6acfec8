//! What reading from the terminal decides, apart from the reading itself:
//! turning the line read into the value, and what to do with an imported
//! file once its variables are stored.

use crate::dotenv::{trim_end, trim_end_at, trim_start, trim_start_at};
use crate::text::{is_white_space, to_chars};
use vstd::prelude::*;
use vstd::string::StrSliceExecFns;

verus! {

broadcast use vstd::string::group_string_axioms;

/// `s` without one trailing line break: a final `\n` is removed, together
/// with a `\r` just before it (a CRLF pair). A `\r` that ends `s` without a
/// `\n` after it is kept.
pub open spec fn strip_line_end(s: Seq<char>) -> Seq<char> {
    if s.len() > 0 && s.last() == '\n' {
        let t = s.drop_last();
        if t.len() > 0 && t.last() == '\r' {
            t.drop_last()
        } else {
            t
        }
    } else {
        s
    }
}

/// Strips a single trailing newline, and the `\r` of a preceding CRLF.
/// Internal and leading whitespace is preserved: a secret may legitimately
/// contain spaces.
pub fn trim_line(s: &str) -> (r: &str)
    ensures
        r@ == strip_line_end(s@),
{
    let n = s.unicode_len();
    let mut end = n;
    if end > 0 && s.get_char(end - 1) == '\n' {
        end = end - 1;
        if end > 0 && s.get_char(end - 1) == '\r' {
            end = end - 1;
        }
    }
    let r = s.substring_char(0, end);
    assert(r@ =~= strip_line_end(s@));
    r
}

/// `c` with an ASCII capital letter turned into its small letter.
pub open spec fn ascii_lower(c: char) -> char {
    if 'A' <= c && c <= 'Z' {
        ((c as int) + 32) as char
    } else {
        c
    }
}

/// The answer, without white space at either end and with ASCII letters in
/// lower case, is `y` or `yes`. Anything else is no.
pub open spec fn is_yes(a: Seq<char>) -> bool {
    let t = trim_end(trim_start(a)).map_values(|c: char| ascii_lower(c));
    t == seq!['y'] || t == seq!['y', 'e', 's']
}

/// Whether an answer to a yes/no question means yes.
pub fn is_yes_answer(answer: &str) -> (b: bool)
    ensures
        b == is_yes(answer@),
{
    let c = to_chars(answer);
    let n = c.len();
    let from = trim_start_at(&c, 0, n);
    let to = trim_end_at(&c, from, n);
    proof {
        assert(c@.subrange(0, n as int) =~= c@);
    }
    let ghost t = c@.subrange(from as int, to as int).map_values(|ch: char| ascii_lower(ch));
    assert(t.len() == to - from);
    if to - from == 1 {
        let y = c[from] == 'y' || c[from] == 'Y';
        assert(t[0] == ascii_lower(c@[from as int]));
        if y {
            assert(t =~= seq!['y']);
        } else {
            assert(t != seq!['y']) by {
                assert(t[0] != 'y');
            }
        }
        y
    } else if to - from == 3 {
        let y = (c[from] == 'y' || c[from] == 'Y') && (c[from + 1] == 'e' || c[from + 1] == 'E') && (c[from
            + 2] == 's' || c[from + 2] == 'S');
        assert(t[0] == ascii_lower(c@[from as int]));
        assert(t[1] == ascii_lower(c@[from + 1]));
        assert(t[2] == ascii_lower(c@[from + 2]));
        if y {
            assert(t =~= seq!['y', 'e', 's']);
        } else {
            assert(t != seq!['y', 'e', 's']) by {
                if t == seq!['y', 'e', 's'] {
                    assert(t[0] == 'y' && t[1] == 'e' && t[2] == 's');
                }
            }
        }
        y
    } else {
        assert(t != seq!['y'] && t != seq!['y', 'e', 's']) by {
            if t == seq!['y'] {
                assert(t.len() == 1);
            }
            if t == seq!['y', 'e', 's'] {
                assert(t.len() == 3);
            }
        }
        false
    }
}

/// What to do with a file once its variables are imported.
#[derive(Debug, Clone, Copy, PartialEq, Eq, Structural)]
pub enum Cleanup {
    /// Leave the file and say so.
    Keep,
    /// Ask the user whether to delete it.
    Ask,
    /// Delete the file.
    Delete,
}

/// The step after an import. Without a terminal there is nobody to ask, so
/// the file is kept. With one, the user is asked, and the file is deleted
/// only on a yes: the default is no.
pub fn after_import(stdin_is_tty: bool, answer: Option<&str>) -> (r: Cleanup)
    ensures
        !stdin_is_tty ==> r == Cleanup::Keep,
        stdin_is_tty && answer is None ==> r == Cleanup::Ask,
        stdin_is_tty && answer is Some ==> r != Cleanup::Ask && (r == Cleanup::Delete <==> is_yes(
            answer->0@,
        )),
{
    if !stdin_is_tty {
        return Cleanup::Keep;
    }
    match answer {
        None => Cleanup::Ask,
        Some(a) => if is_yes_answer(a) {
            Cleanup::Delete
        } else {
            Cleanup::Keep
        },
    }
}

/// `y` or `yes`, each letter in either case.
pub open spec fn yes_word(w: Seq<char>) -> bool {
    ||| w.len() == 1 && (w[0] == 'y' || w[0] == 'Y')
    ||| w.len() == 3 && (w[0] == 'y' || w[0] == 'Y') && (w[1] == 'e' || w[1] == 'E') && (w[2] == 's' || w[2]
        == 'S')
}

proof fn lemma_trim_start_facts(s: Seq<char>)
    ensures
        trim_start(s).len() <= s.len(),
        trim_start(s) == s.skip(s.len() - trim_start(s).len()),
        forall|p: int| 0 <= p < s.len() - trim_start(s).len() ==> #[trigger] is_white_space(s[p]),
        trim_start(s).len() > 0 ==> !is_white_space(trim_start(s)[0]),
    decreases s.len(),
{
    if s.len() > 0 && is_white_space(s[0]) {
        let d = s.drop_first();
        lemma_trim_start_facts(d);
        let r = trim_start(s);
        assert(d.skip(d.len() - r.len()) =~= s.skip(s.len() - r.len()));
        assert forall|p: int| 0 <= p < s.len() - r.len() implies #[trigger] is_white_space(s[p]) by {
            if p > 0 {
                assert(s[p] == d[p - 1]);
            }
        }
    } else {
        assert(s.skip(0) =~= s);
    }
}

proof fn lemma_trim_end_facts(s: Seq<char>)
    ensures
        trim_end(s).len() <= s.len(),
        trim_end(s) == s.take(trim_end(s).len() as int),
        forall|p: int| trim_end(s).len() <= p < s.len() ==> #[trigger] is_white_space(s[p]),
        trim_end(s).len() > 0 ==> !is_white_space(s[trim_end(s).len() - 1]),
    decreases s.len(),
{
    if s.len() > 0 && is_white_space(s.last()) {
        let d = s.drop_last();
        lemma_trim_end_facts(d);
        let r = trim_end(s);
        assert(d.take(r.len() as int) =~= s.take(r.len() as int));
        assert forall|p: int| r.len() <= p < s.len() implies #[trigger] is_white_space(s[p]) by {
            if p < s.len() - 1 {
                assert(s[p] == d[p]);
            }
        }
        if r.len() > 0 {
            assert(s[r.len() - 1] == d[r.len() - 1]);
        }
    } else {
        assert(s.take(s.len() as int) =~= s);
    }
}

proof fn lemma_trim_start_at(s: Seq<char>, i: int)
    requires
        0 <= i <= s.len(),
        forall|p: int| 0 <= p < i ==> #[trigger] is_white_space(s[p]),
        i == s.len() || !is_white_space(s[i]),
    ensures
        trim_start(s) == s.skip(i),
    decreases i,
{
    if i == 0 {
        assert(s.skip(0) =~= s);
    } else {
        assert(is_white_space(s[0]));
        let d = s.drop_first();
        assert forall|p: int| 0 <= p < i - 1 implies #[trigger] is_white_space(d[p]) by {
            assert(d[p] == s[p + 1]);
        }
        if i < s.len() {
            assert(d[i - 1] == s[i]);
        }
        lemma_trim_start_at(d, i - 1);
        assert(d.skip(i - 1) =~= s.skip(i));
    }
}

proof fn lemma_trim_end_at(s: Seq<char>, j: int)
    requires
        0 <= j <= s.len(),
        forall|p: int| j <= p < s.len() ==> #[trigger] is_white_space(s[p]),
        j == 0 || !is_white_space(s[j - 1]),
    ensures
        trim_end(s) == s.take(j),
    decreases s.len() - j,
{
    if j == s.len() {
        assert(s.take(j) =~= s);
        if s.len() > 0 {
            assert(s.last() == s[j - 1]);
        }
    } else {
        assert(is_white_space(s.last()));
        let d = s.drop_last();
        assert forall|p: int| j <= p < d.len() implies #[trigger] is_white_space(d[p]) by {
            assert(d[p] == s[p]);
        }
        if j > 0 {
            assert(d[j - 1] == s[j - 1]);
        }
        lemma_trim_end_at(d, j);
        assert(d.take(j) =~= s.take(j));
    }
}

/// An answer means yes exactly when, apart from white space at either end,
/// it is `y` or `yes` in any mix of cases. So `no`, or anything whose first
/// character is `n`, is never a yes.
pub proof fn law_yes_means_yes(a: Seq<char>)
    ensures
        is_yes(a) <==> exists|i: int, j: int|
            0 <= i <= j <= a.len() && (forall|p: int| 0 <= p < i ==> #[trigger] is_white_space(a[p])) && (forall|
                p: int,
            | j <= p < a.len() ==> #[trigger] is_white_space(a[p])) && yes_word(#[trigger] a.subrange(i, j)),
        a.len() > 0 && (a[0] == 'n' || a[0] == 'N') ==> !is_yes(a),
{
    let y = trim_start(a);
    lemma_trim_start_facts(a);
    let i0 = a.len() - y.len();
    let z = trim_end(y);
    lemma_trim_end_facts(y);
    let m = z.len() as int;
    let t = z.map_values(|c: char| ascii_lower(c));
    assert(z =~= a.subrange(i0, i0 + m));
    if is_yes(a) {
        assert(t.len() == z.len());
        if t == seq!['y'] {
            assert(t[0] == ascii_lower(z[0]));
        } else {
            assert(t == seq!['y', 'e', 's']);
            assert(t[0] == ascii_lower(z[0]));
            assert(t[1] == ascii_lower(z[1]));
            assert(t[2] == ascii_lower(z[2]));
        }
        assert(yes_word(z));
        assert forall|p: int| i0 + m <= p < a.len() implies #[trigger] is_white_space(a[p]) by {
            assert(a[p] == y[p - i0]);
            assert(is_white_space(y[p - i0]));
        }
        assert(yes_word(a.subrange(i0, i0 + m)));
    }
    if exists|i: int, j: int|
        0 <= i <= j <= a.len() && (forall|p: int| 0 <= p < i ==> #[trigger] is_white_space(a[p])) && (forall|
            p: int,
        | j <= p < a.len() ==> #[trigger] is_white_space(a[p])) && yes_word(#[trigger] a.subrange(i, j)) {
        let (i, j) = choose|i: int, j: int|
            0 <= i <= j <= a.len() && (forall|p: int| 0 <= p < i ==> #[trigger] is_white_space(a[p])) && (forall|
                p: int,
            | j <= p < a.len() ==> #[trigger] is_white_space(a[p])) && yes_word(#[trigger] a.subrange(i, j));
        let w = a.subrange(i, j);
        assert(w[0] == a[i]);
        assert(w[w.len() - 1] == a[j - 1]);
        lemma_trim_start_at(a, i);
        let y2 = a.skip(i);
        assert forall|p: int| j - i <= p < y2.len() implies #[trigger] is_white_space(y2[p]) by {
            assert(y2[p] == a[p + i]);
        }
        assert(y2[j - i - 1] == a[j - 1]);
        lemma_trim_end_at(y2, j - i);
        assert(y2.take(j - i) =~= w);
        let t2 = w.map_values(|c: char| ascii_lower(c));
        if w.len() == 1 {
            assert(t2 =~= seq!['y']);
        } else {
            assert(t2 =~= seq!['y', 'e', 's']);
        }
        assert(is_yes(a));
    }
    if a.len() > 0 && (a[0] == 'n' || a[0] == 'N') && is_yes(a) {
        let (i, j) = choose|i: int, j: int|
            0 <= i <= j <= a.len() && (forall|p: int| 0 <= p < i ==> #[trigger] is_white_space(a[p])) && (forall|
                p: int,
            | j <= p < a.len() ==> #[trigger] is_white_space(a[p])) && yes_word(#[trigger] a.subrange(i, j));
        assert(!is_white_space(a[0]));
        if i > 0 {
            assert(is_white_space(a[0]));
        }
        assert(a.subrange(i, j)[0] == a[0]);
    }
}

} // verus!
