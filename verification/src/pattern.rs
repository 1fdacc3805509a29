//! Matching terminals: each is a regular expression, searched for at a place of
//! the input.

use regex::Regex;
use vstd::prelude::*;
use crate::symbols::Pattern;
use crate::text::{chars_of, owned};

verus! {

// ---------------------------------------------------------------------------
// Regular expressions

/// Whether the `regex` crate accepts a pattern.
pub uninterp spec fn regex_valid(pattern: Seq<char>) -> bool;

/// Where the `regex` crate finds a pattern in the text `before + rest`, from
/// the end of `before` on: what it passes over, and what it matches.
pub uninterp spec fn regex_find_at(
    pattern: Seq<char>,
    before: Seq<char>,
    rest: Seq<char>,
) -> Option<(Seq<char>, Seq<char>)>;

/// The content of the outcome of a search.
pub open spec fn found_text(r: Option<(String, String)>) -> Option<(Seq<char>, Seq<char>)> {
    match r {
        Some((a, b)) => Some((a@, b@)),
        None => None,
    }
}

/// `regex::Regex::new` accepts a pattern or refuses it; which of the two
/// depends on the pattern alone.
#[verifier::external_body]
pub(crate) fn is_valid(pattern: &str) -> (r: bool)
    ensures
        r == regex_valid(pattern@),
{
    Regex::new(pattern).is_ok()
}

/// `regex::Regex::find_at` gives the leftmost match of a pattern in
/// `before + rest` that begins at or after the end of `before`, as the text
/// passed over and the text matched: together they begin `rest`. Nothing is
/// found with a pattern that `regex::Regex::new` refuses.
#[verifier::external_body]
pub(crate) fn find_at(pattern: &str, before: &str, rest: &str) -> (r: Option<(String, String)>)
    ensures
        found_text(r) == regex_find_at(pattern@, before@, rest@),
        r matches Some((a, b)) ==> regex_valid(pattern@) && a@.len() + b@.len() <= rest@.len()
            && rest@.take((a@.len() + b@.len()) as int) == a@ + b@,
{
    let text = format!("{before}{rest}");
    let re = Regex::new(pattern).ok()?;
    let m = re.find_at(&text, before.len())?;
    Some((text[before.len()..m.start()].to_string(), m.as_str().to_string()))
}

/// The match that begins at once, if the search found one.
pub open spec fn anchored(found: Option<(Seq<char>, Seq<char>)>) -> Option<Seq<char>> {
    match found {
        Some((skipped, m)) => if skipped.len() == 0 {
            Some(m)
        } else {
            None
        },
        None => None,
    }
}

/// The content of an optional text.
pub open spec fn opt_string(s: Option<String>) -> Option<Seq<char>> {
    match s {
        Some(t) => Some(t@),
        None => None,
    }
}

/// Keeps a match that begins at once.
pub fn keep_anchored(found: Option<(String, String)>) -> (r: Option<String>)
    ensures
        opt_string(r) == anchored(found_text(found)),
{
    match found {
        Some((skipped, m)) => {
            let passed: usize = skipped.as_str().unicode_len();
            if passed == 0 {
                Some(m)
            } else {
                None
            }
        },
        None => None,
    }
}

/// What a search finds: the text passed over and the text matched. Together they
/// begin the text that is searched.
pub open spec fn found_at(pattern: Seq<char>, before: Seq<char>, rest: Seq<char>) -> Option<
    (Seq<char>, Seq<char>),
> {
    match regex_find_at(pattern, before, rest) {
        Some((a, b)) => if a.len() + b.len() <= rest.len() && rest.take(
            (a.len() + b.len()) as int,
        ) == a + b {
            Some((a, b))
        } else {
            None
        },
        None => None,
    }
}

/// What a pattern matches at the beginning of `rest`, after `before`.
pub open spec fn matched(pattern: Seq<char>, before: Seq<char>, rest: Seq<char>) -> Option<
    Seq<char>,
> {
    anchored(found_at(pattern, before, rest))
}

/// Matches a pattern at the beginning of `rest`, after `before`.
pub fn match_text(pattern: &str, before: &str, rest: &str) -> (r: Option<String>)
    ensures
        opt_string(r) == matched(pattern@, before@, rest@),
        r matches Some(m) ==> m@.len() <= rest@.len() && rest@.take(m@.len() as int) == m@,
{
    let found = find_at(pattern, before, rest);
    let ghost was = found_text(found);
    let r = keep_anchored(found);
    proof {
        if let Some((a, b)) = was {
            if a.len() == 0 {
                assert(a + b =~= b);
            }
        }
    }
    r
}

// ---------------------------------------------------------------------------
// Patterns of terminals

/// Whether a character has a meaning of its own in a regular expression.
pub open spec fn is_meta(c: char) -> bool {
    c == '\\' || c == '.' || c == '+' || c == '*' || c == '?' || c == '(' || c == ')' || c == '|'
        || c == '[' || c == ']' || c == '{' || c == '}' || c == '^' || c == '$' || c == '#' || c
        == '&' || c == '-' || c == '~'
}

/// The regular expression that matches just a text.
pub open spec fn escaped(s: Seq<char>) -> Seq<char>
    decreases s.len(),
{
    if s.len() == 0 {
        Seq::empty()
    } else if is_meta(s.last()) {
        escaped(s.drop_last()).push('\\').push(s.last())
    } else {
        escaped(s.drop_last()).push(s.last())
    }
}

/// The regular expression that matches just a text.
pub fn escape(s: &str) -> (r: String)
    ensures
        r@ == escaped(s@),
{
    let chars = chars_of(s);
    let mut r = String::new();
    let mut i: usize = 0;
    proof {
        assert(r@ =~= Seq::empty());
        assert(s@.take(0) =~= Seq::empty());
    }
    while i < chars.len()
        invariant
            i <= chars@.len(),
            chars@ == s@,
            r@ == escaped(s@.take(i as int)),
        decreases chars.len() - i,
    {
        let c = chars[i];
        proof {
            assert(s@.take(i + 1).drop_last() =~= s@.take(i as int));
            assert(s@.take(i + 1).last() == c);
        }
        if c == '\\' || c == '.' || c == '+' || c == '*' || c == '?' || c == '(' || c == ')' || c
            == '|' || c == '[' || c == ']' || c == '{' || c == '}' || c == '^' || c == '$' || c
            == '#' || c == '&' || c == '-' || c == '~' {
            r.push('\\');
        }
        r.push(c);
        i = i + 1;
    }
    proof {
        assert(s@.take(s@.len() as int) =~= s@);
    }
    r
}

/// The regular expression of a terminal.
pub open spec fn inline_of(p: Pattern) -> Seq<char> {
    match p {
        Pattern::Str { value, ci } => if ci {
            "(?i:"@ + escaped(value@) + ")"@
        } else {
            escaped(value@)
        },
        Pattern::Re { pattern, flags } => "(?"@ + flags@ + ":"@ + pattern@ + ")"@,
    }
}

/// The regular expression of a terminal.
pub fn inline_regex(p: &Pattern) -> (r: String)
    ensures
        r@ == inline_of(*p),
{
    match p {
        Pattern::Str { value, ci } => {
            let quoted = escape(value.as_str());
            if *ci {
                let mut r = owned("(?i:");
                r.append(quoted.as_str());
                r.append(")");
                r
            } else {
                quoted
            }
        },
        Pattern::Re { pattern, flags } => {
            let mut r = owned("(?");
            r.append(flags.as_str());
            r.append(":");
            r.append(pattern.as_str());
            r.append(")");
            r
        },
    }
}

/// Whether a bit of the global flags is set.
pub open spec fn has_flag(flags: u32, bit: u32) -> bool {
    (flags / bit) % 2 == 1
}

/// The letters of global flags: ignoring case, lines, dots and comments.
pub open spec fn flag_letters(flags: u32) -> Seq<char> {
    let i = if has_flag(flags, 2) { seq!['i'] } else { Seq::empty() };
    let m = if has_flag(flags, 8) { seq!['m'] } else { Seq::empty() };
    let s = if has_flag(flags, 16) { seq!['s'] } else { Seq::empty() };
    let x = if has_flag(flags, 64) { seq!['x'] } else { Seq::empty() };
    i + m + s + x
}

/// What switches global flags on in front of a regular expression.
pub open spec fn flags_prefix(flags: u32) -> Seq<char> {
    let letters = flag_letters(flags);
    if letters.len() == 0 {
        Seq::empty()
    } else {
        "(?"@ + letters + ")"@
    }
}

/// What switches global flags on in front of a regular expression.
pub fn global_prefix(flags: u32) -> (r: String)
    ensures
        r@ == flags_prefix(flags),
{
    let mut letters = String::new();
    proof {
        assert(letters@ =~= Seq::empty());
    }
    if (flags / 2) % 2 == 1 {
        letters.push('i');
    }
    if (flags / 8) % 2 == 1 {
        letters.push('m');
    }
    if (flags / 16) % 2 == 1 {
        letters.push('s');
    }
    if (flags / 64) % 2 == 1 {
        letters.push('x');
    }
    proof {
        assert(letters@ =~= flag_letters(flags));
    }
    let n: usize = letters.as_str().unicode_len();
    let mut r = String::new();
    if n == 0 {
        proof {
            assert(r@ =~= Seq::empty());
        }
        r
    } else {
        r.append("(?");
        r.append(letters.as_str());
        r.append(")");
        proof {
            assert(r@ =~= flags_prefix(flags));
        }
        r
    }
}

} // verus!
