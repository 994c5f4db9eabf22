//! Route paths: joining a controller's base route with an action's route.

use vstd::prelude::*;
use crate::text::{joined, starts_with_char};

verus! {

/// `s` without its leading `/` characters.
pub open spec fn trim_start_slashes(s: Seq<char>) -> Seq<char>
    decreases s.len(),
{
    if s.len() > 0 && s[0] == '/' {
        trim_start_slashes(s.drop_first())
    } else {
        s
    }
}

/// `s` without its trailing `/` characters.
pub open spec fn trim_end_slashes(s: Seq<char>) -> Seq<char>
    decreases s.len(),
{
    if s.len() > 0 && s.last() == '/' {
        trim_end_slashes(s.drop_last())
    } else {
        s
    }
}

/// `s` without `/` at either end.
pub open spec fn trim_slashes(s: Seq<char>) -> Seq<char> {
    trim_end_slashes(trim_start_slashes(s))
}

/// `s` starting with `/`: itself when it does, else `/` then `s`.
pub open spec fn with_leading_slash(s: Seq<char>) -> Seq<char> {
    if s.len() > 0 && s[0] == '/' {
        s
    } else {
        seq!['/'] + s
    }
}

/// The text of an optional route (empty when absent).
pub open spec fn route_text(o: Option<Seq<char>>) -> Seq<char> {
    match o {
        Some(s) => s,
        None => Seq::empty(),
    }
}

/// The full path of an action: an absolute action route as it is;
/// otherwise the base route and the action route, each stripped of
/// slashes at its ends and left out when empty, joined by `/` after a
/// leading `/`.
pub open spec fn combined_path(base: Option<Seq<char>>, sub: Option<Seq<char>>) -> Seq<char> {
    let b = route_text(base);
    let s = route_text(sub);
    if s.len() > 0 && s[0] == '/' {
        s
    } else {
        let parts = (if b.len() > 0 {
            seq![trim_slashes(b)]
        } else {
            Seq::empty()
        }) + (if s.len() > 0 {
            seq![trim_slashes(s)]
        } else {
            Seq::empty()
        });
        if parts.len() == 0 {
            seq!['/']
        } else {
            with_leading_slash(joined(parts, seq!['/']))
        }
    }
}

/// `s` without `/` at either end.
pub fn trim_slashes_of(s: &str) -> (r: String)
    ensures
        r@ == trim_slashes(s@),
{
    let n = s.unicode_len();
    let mut a: usize = 0;
    assert(s@.subrange(0, n as int) =~= s@);
    while a < n && s.get_char(a) == '/'
        invariant
            n == s@.len(),
            a <= n,
            trim_start_slashes(s@) == trim_start_slashes(s@.subrange(a as int, n as int)),
        decreases n - a,
    {
        assert(s@.subrange(a as int, n as int).drop_first() =~= s@.subrange(a + 1, n as int));
        a = a + 1;
    }
    assert(trim_start_slashes(s@.subrange(a as int, n as int)) == s@.subrange(a as int, n as int));
    let mut b: usize = n;
    while b > a && s.get_char(b - 1) == '/'
        invariant
            n == s@.len(),
            a <= b <= n,
            trim_slashes(s@) == trim_end_slashes(s@.subrange(a as int, b as int)),
        decreases b,
    {
        assert(s@.subrange(a as int, b as int).drop_last() =~= s@.subrange(a as int, b - 1));
        b = b - 1;
    }
    String::from_str(s.substring_char(a, b))
}

/// `s` starting with `/`.
pub fn ensure_leading_slash(s: &str) -> (r: String)
    ensures
        r@ == with_leading_slash(s@),
{
    if starts_with_char(s, '/') {
        String::from_str(s)
    } else {
        let mut r = String::from_str("/");
        r.append(s);
        proof {
            reveal_strlit("/");
        }
        assert(r@ =~= seq!['/'] + s@);
        r
    }
}

/// The full path of an action with optional route `sub` in a controller
/// with optional base route `base`.
pub fn combine_paths(base: &Option<String>, sub: &Option<String>) -> (r: String)
    ensures
        r@ == combined_path(
            match base {
                Some(b) => Some(b@),
                None => None,
            },
            match sub {
                Some(s) => Some(s@),
                None => None,
            },
        ),
{
    proof {
        reveal_strlit("/");
        reveal_strlit("");
    }
    let b = match base {
        Some(x) => x.as_str(),
        None => "",
    };
    let s = match sub {
        Some(x) => x.as_str(),
        None => "",
    };
    if starts_with_char(s, '/') {
        return String::from_str(s);
    }
    let mut parts: Vec<String> = Vec::new();
    if b.unicode_len() > 0 {
        parts.push(trim_slashes_of(b));
    }
    if s.unicode_len() > 0 {
        parts.push(trim_slashes_of(s));
    }
    if parts.len() == 0 {
        return String::from_str("/");
    }
    let j = crate::text::join(&parts, "/");
    let ghost bv = route_text(
        match base {
            Some(x) => Some(x@),
            None => None,
        },
    );
    let ghost sv = route_text(
        match sub {
            Some(x) => Some(x@),
            None => None,
        },
    );
    assert(crate::text::string_views(parts@) =~= (if bv.len() > 0 {
        seq![trim_slashes(bv)]
    } else {
        Seq::empty()
    }) + (if sv.len() > 0 {
        seq![trim_slashes(sv)]
    } else {
        Seq::empty()
    }));
    assert(b@ == bv);
    assert(s@ == sv);
    assert("/"@ =~= seq!['/']);
    assert(j@ == joined(crate::text::string_views(parts@), seq!['/']));
    ensure_leading_slash(j.as_str())
}


/// Every combined route path starts with `/`.
pub proof fn law_combined_path_rooted(base: Option<Seq<char>>, sub: Option<Seq<char>>)
    ensures
        combined_path(base, sub).len() > 0,
        combined_path(base, sub)[0] == '/',
{
}

} // verus!
