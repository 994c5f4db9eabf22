//! Reading text by lines and by words, as `str::lines` and
//! `str::split_whitespace` do.

use vstd::prelude::*;
use crate::text::string_views;
use crate::detect::common::{is_ws, is_whitespace};

verus! {

/// `x` without one `\r` at its end.
pub open spec fn strip_cr(x: Seq<char>) -> Seq<char> {
    if x.len() > 0 && x.last() == '\r' {
        x.drop_last()
    } else {
        x
    }
}

/// The first `\n` of `s` from `i` on.
pub open spec fn next_newline(s: Seq<char>, i: int) -> int
    decreases s.len() - i,
{
    if i < 0 || i >= s.len() {
        s.len() as int
    } else if s[i] == '\n' {
        i
    } else {
        next_newline(s, i + 1)
    }
}

/// The lines of `s` from position `i`: split at each `\n`, a `\r` before
/// it dropped, and no empty line after a final `\n`.
pub open spec fn lines_from(s: Seq<char>, i: int) -> Seq<Seq<char>>
    decreases s.len() - i,
{
    if i < 0 || i >= s.len() {
        Seq::empty()
    } else {
        let e = next_newline(s, i);
        proof {
            lemma_next_newline(s, i);
        }
        if e >= s.len() {
            seq![s.subrange(i, s.len() as int)]
        } else {
            seq![strip_cr(s.subrange(i, e))] + lines_from(s, e + 1)
        }
    }
}

/// The lines of `s`.
pub open spec fn lines_of(s: Seq<char>) -> Seq<Seq<char>> {
    lines_from(s, 0)
}

/// Where the next line break is: not before `i`, not past the end, with no
/// line break between.
pub proof fn lemma_next_newline(s: Seq<char>, i: int)
    requires
        0 <= i <= s.len(),
    ensures
        i <= next_newline(s, i) <= s.len(),
        next_newline(s, i) < s.len() ==> s[next_newline(s, i)] == '\n',
        forall|j: int| i <= j < next_newline(s, i) ==> s[j] != '\n',
    decreases s.len() - i,
{
    if i < s.len() && s[i] != '\n' {
        lemma_next_newline(s, i + 1);
    }
}

/// The lines of `s` (see `lines_of`).
pub fn split_lines(s: &str) -> (r: Vec<String>)
    ensures
        string_views(r@) == lines_of(s@),
{
    let n = s.unicode_len();
    let mut r: Vec<String> = Vec::new();
    let mut i: usize = 0;
    proof {
        reveal_strlit("");
    }
    while i < n
        invariant
            n == s@.len(),
            i <= n,
            string_views(r@) + lines_from(s@, i as int) == lines_of(s@),
        decreases n - i,
    {
        let mut e: usize = i;
        while e < n && s.get_char(e) != '\n'
            invariant
                n == s@.len(),
                i <= e <= n,
                next_newline(s@, i as int) == next_newline(s@, e as int),
            decreases n - e,
        {
            e = e + 1;
        }
        proof {
            lemma_next_newline(s@, i as int);
        }
        let ghost before = string_views(r@);
        if e >= n {
            r.push(String::from_str(s.substring_char(i, n)));
            assert(string_views(r@) =~= before.push(s@.subrange(i as int, n as int)));
            assert(lines_from(s@, i as int) == seq![s@.subrange(i as int, n as int)]);
            assert(lines_from(s@, n as int) == Seq::<Seq<char>>::empty());
            assert(string_views(r@) + lines_from(s@, n as int) =~= before + lines_from(s@, i as int));
            i = n;
        } else {
            let line = s.substring_char(i, e);
            let k = line.unicode_len();
            let piece = if k > 0 && line.get_char(k - 1) == '\r' {
                String::from_str(line.substring_char(0, k - 1))
            } else {
                String::from_str(line)
            };
            assert(piece@ =~= strip_cr(s@.subrange(i as int, e as int)));
            r.push(piece);
            assert(string_views(r@) =~= before.push(strip_cr(s@.subrange(i as int, e as int))));
            assert(string_views(r@) + lines_from(s@, e + 1) =~= before + lines_from(s@, i as int));
            i = e + 1;
        }
    }
    assert(lines_from(s@, i as int) == Seq::<Seq<char>>::empty());
    assert(string_views(r@) =~= lines_of(s@));
    r
}

/// The end of the run of non-space characters of `s` from `i`.
pub open spec fn word_end(s: Seq<char>, i: int) -> int
    decreases s.len() - i,
{
    if i < 0 || i >= s.len() || is_ws(s[i]) {
        i
    } else {
        word_end(s, i + 1)
    }
}

/// The words of `s` from position `i`: the maximal runs of characters that
/// are not white space.
pub open spec fn words_from(s: Seq<char>, i: int) -> Seq<Seq<char>>
    decreases s.len() - i,
{
    if i < 0 || i >= s.len() {
        Seq::empty()
    } else if is_ws(s[i]) {
        words_from(s, i + 1)
    } else {
        let e = word_end(s, i);
        proof {
            lemma_word_end(s, i);
        }
        if e <= i {
            Seq::empty()
        } else {
            seq![s.subrange(i, e)] + words_from(s, e)
        }
    }
}

/// The words of `s`.
pub open spec fn words_of(s: Seq<char>) -> Seq<Seq<char>> {
    words_from(s, 0)
}

/// A word that starts at `i` ends after `i`, within the text.
pub proof fn lemma_word_end(s: Seq<char>, i: int)
    requires
        0 <= i < s.len(),
        !is_ws(s[i]),
    ensures
        i < word_end(s, i) <= s.len(),
    decreases s.len() - i,
{
    if i + 1 < s.len() && !is_ws(s[i + 1]) {
        lemma_word_end(s, i + 1);
    } else {
        assert(word_end(s, i + 1) == i + 1);
    }
}

/// The words of `s` (see `words_of`).
pub fn split_words(s: &str) -> (r: Vec<String>)
    ensures
        string_views(r@) == words_of(s@),
{
    let n = s.unicode_len();
    let mut r: Vec<String> = Vec::new();
    let mut i: usize = 0;
    while i < n
        invariant
            n == s@.len(),
            i <= n,
            string_views(r@) + words_from(s@, i as int) == words_of(s@),
        decreases n - i,
    {
        if is_whitespace(s.get_char(i)) {
            i = i + 1;
        } else {
            let mut e: usize = i;
            while e < n && !is_whitespace(s.get_char(e))
                invariant
                    n == s@.len(),
                    i <= e <= n,
                    word_end(s@, i as int) == word_end(s@, e as int),
                decreases n - e,
            {
                e = e + 1;
            }
            proof {
                lemma_word_end(s@, i as int);
            }
            let ghost before = string_views(r@);
            r.push(String::from_str(s.substring_char(i, e)));
            assert(string_views(r@) =~= before.push(s@.subrange(i as int, e as int)));
            assert(string_views(r@) + words_from(s@, e as int) =~= before + words_from(s@, i as int));
            i = e;
        }
    }
    assert(string_views(r@) =~= words_of(s@));
    r
}

/// The last position of `c` in `s`.
pub open spec fn last_index_of(s: Seq<char>, c: char) -> Option<int>
    decreases s.len(),
{
    if s.len() == 0 {
        None
    } else if s.last() == c {
        Some(s.len() - 1)
    } else {
        last_index_of(s.drop_last(), c)
    }
}

/// The last position of `c` in `s`.
pub fn rfind_char(s: &str, c: char) -> (r: Option<usize>)
    ensures
        match r {
            Some(i) => last_index_of(s@, c) == Some(i as int) && i < s@.len(),
            None => last_index_of(s@, c) is None,
        },
{
    let mut k: usize = s.unicode_len();
    assert(s@.subrange(0, k as int) =~= s@);
    while k > 0
        invariant
            k <= s@.len(),
            last_index_of(s@, c) == last_index_of(s@.subrange(0, k as int), c),
        decreases k,
    {
        if s.get_char(k - 1) == c {
            return Some(k - 1);
        }
        assert(s@.subrange(0, k as int).drop_last() =~= s@.subrange(0, k - 1));
        k = k - 1;
    }
    None
}

/// Whether a character is alphanumeric, as `char::is_alphanumeric` decides
/// it (the Unicode `Alphabetic` property, or a numeric category).
pub uninterp spec fn alphanumeric(c: char) -> bool;

/// Wraps `char::is_alphanumeric` from std. The result is named
/// `alphanumeric(c)`; the contract states only what the documentation gives
/// for ASCII: letters and digits are alphanumeric, `_`, `.`, `(` and `)` and
/// white space are not.
#[verifier::external_body]
pub(crate) fn is_alnum(c: char) -> (r: bool)
    ensures
        r == alphanumeric(c),
        (('a' <= c && c <= 'z') || ('A' <= c && c <= 'Z') || ('0' <= c && c <= '9')) ==> r,
        (c == '_' || c == '.' || c == '(' || c == ')' || c == ' ') ==> !r,
{
    c.is_alphanumeric()
}

} // verus!
