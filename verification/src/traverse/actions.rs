//! The actions a user types during a traversal.

use vstd::prelude::*;
use crate::text::{str_eq, to_lower, lowercase, is_ascii_text, ascii_lowered, ascii_lower_char};
use crate::detect::common::{trim, trimmed, is_ws};
use crate::traverse::state::Judgment;

verus! {

/// What the user asked for.
#[derive(Debug, Clone, Copy, PartialEq, Eq, Structural)]
pub enum Action {
    /// Follow the numbered call down
    Down(usize),
    /// Follow the numbered call down into the lettered implementation
    DownDispatch(usize, usize),
    /// Follow the numbered caller up
    Up(usize),
    /// Follow the numbered caller up into the lettered one
    UpDispatch(usize, usize),
    /// Judge the current class
    Complete(Judgment),
    Discard,
    History,
    Quit,
    Unknown,
}

/// An ASCII digit.
pub open spec fn is_digit(c: char) -> bool {
    '0' <= c && c <= '9'
}

/// An ASCII letter.
pub open spec fn is_ascii_letter(c: char) -> bool {
    ('a' <= c && c <= 'z') || ('A' <= c && c <= 'Z')
}

/// The end of the run of ASCII digits of `s` starting at `i`.
pub open spec fn digits_end(s: Seq<char>, i: int) -> int
    decreases s.len() - i,
    when 0 <= i <= s.len()
{
    if i < s.len() && is_digit(s[i]) {
        digits_end(s, i + 1)
    } else {
        i
    }
}

/// The value of a string of ASCII digits.
pub open spec fn digits_value(d: Seq<char>) -> nat
    decreases d.len(),
{
    if d.len() == 0 {
        0
    } else {
        digits_value(d.drop_last()) * 10 + ((d.last() as int - '0' as int) as nat)
    }
}

/// The number written at the start of `s` and where it ends, when there
/// is one that fits in `usize`.
pub open spec fn leading_number(s: Seq<char>) -> Option<(usize, int)> {
    let e = digits_end(s, 0);
    if e == 0 || digits_value(s.subrange(0, e)) > usize::MAX {
        None
    } else {
        Some((digits_value(s.subrange(0, e)) as usize, e))
    }
}

/// The position of a lowercase letter in the alphabet (taken modulo 256,
/// as a byte subtraction wraps).
pub open spec fn letter_index(c: char) -> usize {
    ((c as int - 'a' as int) % 256) as usize
}

/// The action of a command already trimmed and lowercased.
pub open spec fn action_of(s: Seq<char>) -> Action {
    if s == "q"@ || s == "quit"@ {
        Action::Quit
    } else if s == "h"@ || s == "history"@ {
        Action::History
    } else if s == "d"@ || s == "disc"@ || s == "discard"@ {
        Action::Discard
    } else if s.len() > 0 && s[0] == 'c' {
        let rest = trimmed(s.drop_first());
        if rest == "p"@ || rest == "primary"@ {
            Action::Complete(Judgment::Primary)
        } else if rest == "s"@ || rest == "symptom"@ {
            Action::Complete(Judgment::Symptom)
        } else if rest == "u"@ || rest == "unrelated"@ {
            Action::Complete(Judgment::Unrelated)
        } else {
            Action::Unknown
        }
    } else if s.len() > 0 && s[0] == 'u' && leading_number(trimmed(s.drop_first())) is Some {
        let rest = trimmed(s.drop_first());
        let (n, e) = leading_number(rest).unwrap();
        if e < rest.len() && is_ascii_letter(rest[e]) {
            Action::UpDispatch(n, letter_index(rest[e]))
        } else {
            Action::Up(n)
        }
    } else {
        match leading_number(s) {
            Some((n, e)) => {
                let after = trimmed(s.subrange(e, s.len() as int));
                if after.len() > 0 && is_ascii_letter(after[0]) {
                    Action::DownDispatch(n, letter_index(after[0]))
                } else {
                    Action::Down(n)
                }
            },
            None => Action::Unknown,
        }
    }
}

/// The action the user typed: the input trimmed and lowercased, then read.
pub open spec fn parsed_action(input: Seq<char>) -> Action {
    action_of(lowercase(trimmed(input)))
}

proof fn lemma_digits_value_grows(s: Seq<char>, k: int, e: int)
    requires
        0 <= k <= e <= s.len(),
        forall|j: int| 0 <= j < e ==> is_digit(#[trigger] s[j]),
    ensures
        digits_value(s.subrange(0, k)) <= digits_value(s.subrange(0, e)),
    decreases e - k,
{
    if k < e {
        lemma_digits_value_grows(s, k + 1, e);
        assert(s.subrange(0, k + 1).drop_last() =~= s.subrange(0, k));
    }
}

proof fn lemma_digits_end_bounds(s: Seq<char>, i: int)
    requires
        0 <= i <= s.len(),
    ensures
        i <= digits_end(s, i) <= s.len(),
        forall|j: int| i <= j < digits_end(s, i) ==> is_digit(#[trigger] s[j]),
        digits_end(s, i) < s.len() ==> !is_digit(s[digits_end(s, i)]),
    decreases s.len() - i,
{
    if i < s.len() && is_digit(s[i]) {
        lemma_digits_end_bounds(s, i + 1);
    }
}

/// The number written at the start of `s`, with where it ends, when there
/// is one that fits in `usize`.
fn leading_number_exec(s: &str) -> (r: Option<(usize, usize)>)
    ensures
        match r {
            Some((n, e)) => leading_number(s@) == Some((n, e as int)) && e <= s@.len(),
            None => leading_number(s@) is None,
        },
{
    let len = s.unicode_len();
    proof {
        lemma_digits_end_bounds(s@, 0);
    }
    let ghost e = digits_end(s@, 0);
    let mut i: usize = 0;
    let mut v: usize = 0;
    let mut fits = true;
    while i < len && '0' <= s.get_char(i) && s.get_char(i) <= '9'
        invariant
            len == s@.len(),
            0 <= i <= e <= len,
            e == digits_end(s@, 0),
            forall|j: int| 0 <= j < e ==> is_digit(#[trigger] s@[j]),
            e < len ==> !is_digit(s@[e]),
            fits ==> v == digits_value(s@.subrange(0, i as int)),
            !fits ==> digits_value(s@.subrange(0, i as int)) > usize::MAX,
        decreases len - i,
    {
        let ghost pre = s@.subrange(0, i + 1);
        assert(pre.drop_last() =~= s@.subrange(0, i as int));
        let d = (s.get_char(i) as u32 - '0' as u32) as usize;
        assert(d as int == s@[i as int] as int - '0' as int);
        if fits {
            match v.checked_mul(10) {
                Some(t) => match t.checked_add(d) {
                    Some(w) => {
                        v = w;
                    },
                    None => {
                        fits = false;
                    },
                },
                None => {
                    fits = false;
                },
            }
        } else {
            assert(digits_value(pre) >= digits_value(s@.subrange(0, i as int)));
        }
        i = i + 1;
    }
    assert(i == e);
    if i == 0 || !fits {
        return None;
    }
    Some((v, i))
}

/// Reads the action the user typed: the input trimmed and lowercased,
/// then read by `action_from_text`. For ASCII input the lowercasing is the
/// ASCII one.
pub fn parse_action(input: &str) -> (r: Action)
    ensures
        r == parsed_action(input@),
        is_ascii_text(input@) ==> r == action_of(ascii_lowered(trimmed(input@))),
{
    let t = trim(input);
    proof {
        lemma_trimmed_props(input@);
    }
    let s = to_lower(t.as_str());
    action_from_text(s.as_str())
}

/// The action of a command already trimmed and lowercased.
pub fn action_from_text(s: &str) -> (r: Action)
    ensures
        r == action_of(s@),
{
    if str_eq(s, "q") || str_eq(s, "quit") {
        return Action::Quit;
    }
    if str_eq(s, "h") || str_eq(s, "history") {
        return Action::History;
    }
    if str_eq(s, "d") || str_eq(s, "disc") || str_eq(s, "discard") {
        return Action::Discard;
    }
    let n = s.unicode_len();
    if n > 0 && s.get_char(0) == 'c' {
        let rest = trim(s.substring_char(1, n));
        assert(s@.subrange(1, n as int) =~= s@.drop_first());
        let r = rest.as_str();
        if str_eq(r, "p") || str_eq(r, "primary") {
            return Action::Complete(Judgment::Primary);
        } else if str_eq(r, "s") || str_eq(r, "symptom") {
            return Action::Complete(Judgment::Symptom);
        } else if str_eq(r, "u") || str_eq(r, "unrelated") {
            return Action::Complete(Judgment::Unrelated);
        } else {
            return Action::Unknown;
        }
    }
    if n > 0 && s.get_char(0) == 'u' {
        let rest = trim(s.substring_char(1, n));
        assert(s@.subrange(1, n as int) =~= s@.drop_first());
        let r = rest.as_str();
        match leading_number_exec(r) {
            Some((k, e)) => {
                let m = r.unicode_len();
                if e < m {
                    let ch = r.get_char(e);
                    if ('a' <= ch && ch <= 'z') || ('A' <= ch && ch <= 'Z') {
                        let sub = (((ch as u32) + 256 - ('a' as u32)) % 256) as usize;
                        return Action::UpDispatch(k, sub);
                    }
                }
                return Action::Up(k);
            },
            None => {},
        }
    }
    match leading_number_exec(s) {
        Some((k, e)) => {
            let after = trim(s.substring_char(e, n));
            let a = after.as_str();
            if a.unicode_len() > 0 {
                let ch = a.get_char(0);
                if ('a' <= ch && ch <= 'z') || ('A' <= ch && ch <= 'Z') {
                    let sub = (((ch as u32) + 256 - ('a' as u32)) % 256) as usize;
                    return Action::DownDispatch(k, sub);
                }
            }
            Action::Down(k)
        },
        None => Action::Unknown,
    }
}

/// Trimming keeps ASCII text ASCII, and what is left (when anything is)
/// starts and ends with a character that is not white space.
pub proof fn lemma_trimmed_props(s: Seq<char>)
    ensures
        is_ascii_text(s) ==> is_ascii_text(trimmed(s)),
        trimmed(s).len() > 0 ==> !is_ws(trimmed(s)[0]) && !is_ws(trimmed(s).last()),
    decreases s.len(),
{
    if s.len() > 0 && is_ws(s[0]) {
        lemma_trimmed_props(s.drop_first());
    } else if s.len() > 0 && is_ws(s.last()) {
        lemma_trimmed_props(s.drop_last());
    }
}

/// Inputs are read alike however their case and surrounding blanks are
/// written: for ASCII text, trimming and lowercasing a command that was
/// already trimmed and lowercased changes nothing, so `parse_action` of
/// the input and of its trimmed, lowercased form give the same action.
pub proof fn law_action_ignores_blanks_and_case(s: Seq<char>)
    ensures
        ascii_lowered(trimmed(ascii_lowered(trimmed(s)))) == ascii_lowered(trimmed(s)),
        action_of(ascii_lowered(trimmed(ascii_lowered(trimmed(s))))) == action_of(ascii_lowered(trimmed(s))),
{
    let t = trimmed(s);
    let x = ascii_lowered(t);
    lemma_trimmed_props(s);
    if x.len() > 0 {
        assert(x[0] == ascii_lower_char(t[0]));
        assert(x.last() == ascii_lower_char(t.last()));
        assert(!is_ws(x[0]));
        assert(!is_ws(x.last()));
    }
    assert(trimmed(x) == x);
    assert(ascii_lowered(x) =~= x);
}

} // verus!
