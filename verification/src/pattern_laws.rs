//! What the patterns of terminals say: plain texts stand for themselves, and global
//! flags are switched on in front.

use vstd::prelude::*;
use crate::pattern;

verus! {

/// Whether a character is one of those that mean something in a regular expression.
pub open spec fn means_something(c: char) -> bool {
    "\\.+*?()|[]{}^$#&-~"@.contains(c)
}

/// A text with a backslash before each character that means something.
pub open spec fn spelled(s: Seq<char>) -> Seq<char>
    decreases s.len(),
{
    if s.len() == 0 {
        Seq::empty()
    } else if means_something(s[0]) {
        seq!['\\', s[0]] + spelled(s.drop_first())
    } else {
        seq![s[0]] + spelled(s.drop_first())
    }
}

/// What is left of a text once each backslash is taken with the character behind it.
pub open spec fn unquoted(s: Seq<char>) -> Seq<char>
    decreases s.len(),
{
    if s.len() == 0 {
        Seq::empty()
    } else if s[0] == '\\' && s.len() >= 2 {
        seq![s[1]] + unquoted(s.skip(2))
    } else {
        seq![s[0]] + unquoted(s.skip(1))
    }
}

proof fn lemma_marks(c: char)
    ensures
        pattern::is_meta(c) == means_something(c),
{
    reveal_strlit("\\.+*?()|[]{}^$#&-~");
    let m = "\\.+*?()|[]{}^$#&-~"@;
    assert(m.len() == 18);
    if pattern::is_meta(c) {
        assert(m[0] == '\\' && m[1] == '.' && m[2] == '+' && m[3] == '*' && m[4] == '?' && m[5]
            == '(' && m[6] == ')' && m[7] == '|' && m[8] == '[');
        assert(m[9] == ']' && m[10] == '{' && m[11] == '}' && m[12] == '^' && m[13] == '$' && m[14]
            == '#' && m[15] == '&' && m[16] == '-' && m[17] == '~');
    }
    if m.contains(c) {
        let i = choose|i: int| 0 <= i < m.len() && m[i] == c;
        assert(i == 0 || i == 1 || i == 2 || i == 3 || i == 4 || i == 5 || i == 6 || i == 7 || i
            == 8 || i == 9 || i == 10 || i == 11 || i == 12 || i == 13 || i == 14 || i == 15 || i
            == 16 || i == 17);
    }
}

proof fn lemma_joined(a: Seq<char>, b: Seq<char>)
    ensures
        pattern::escaped(a + b) == pattern::escaped(a) + pattern::escaped(b),
    decreases b.len(),
{
    if b.len() == 0 {
        assert(a + b =~= a);
        assert(pattern::escaped(a) + pattern::escaped(b) =~= pattern::escaped(a));
    } else {
        lemma_joined(a, b.drop_last());
        assert((a + b).drop_last() =~= a + b.drop_last());
        assert((a + b).last() == b.last());
        assert(pattern::escaped(a + b) =~= pattern::escaped(a) + pattern::escaped(b));
    }
}

proof fn lemma_spelled(s: Seq<char>)
    ensures
        pattern::escaped(s) == spelled(s),
    decreases s.len(),
{
    if s.len() > 0 {
        let one = seq![s[0]];
        let rest = s.drop_first();
        assert(one + rest =~= s);
        lemma_joined(one, rest);
        lemma_spelled(rest);
        lemma_marks(s[0]);
        assert(one.drop_last() =~= Seq::empty());
        assert(one.last() == s[0]);
        assert(pattern::escaped(one.drop_last()) =~= Seq::empty());
        assert(pattern::escaped(one) =~= if means_something(s[0]) {
            seq!['\\', s[0]]
        } else {
            one
        });
    }
}

proof fn lemma_unquoted(s: Seq<char>)
    ensures
        unquoted(spelled(s)) == s,
    decreases s.len(),
{
    if s.len() > 0 {
        let rest = s.drop_first();
        lemma_unquoted(rest);
        let e = spelled(s);
        if means_something(s[0]) {
            assert(e[0] == '\\' && e[1] == s[0]);
            assert(e.skip(2) =~= spelled(rest));
        } else {
            lemma_marks(s[0]);
            assert(e[0] == s[0]);
            assert(s[0] != '\\');
            assert(e.skip(1) =~= spelled(rest));
        }
        assert(seq![s[0]] + rest =~= s);
    }
}

/// A plain text is quoted as it is, but for a backslash before each character that
/// means something in a regular expression; read without these it is the text again.
pub proof fn plain_texts_are_quoted(s: Seq<char>)
    ensures
        pattern::escaped(s) == spelled(s),
        unquoted(pattern::escaped(s)) == s,
{
    lemma_spelled(s);
    lemma_unquoted(s);
}

/// Global flags are switched on by their letters, in one group in front, and without
/// any there is nothing in front.
pub proof fn flags_are_switched_on(flags: u32)
    ensures
        ({
            let p = pattern::flags_prefix(flags);
            &&& p.contains('i') <==> flags & 2 != 0
            &&& p.contains('m') <==> flags & 8 != 0
            &&& p.contains('s') <==> flags & 16 != 0
            &&& p.contains('x') <==> flags & 64 != 0
            &&& p.len() > 0 <==> flags & 2 != 0 || flags & 8 != 0 || flags & 16 != 0 || flags & 64
                != 0
            &&& p.len() > 0 ==> p.len() > 3 && p[0] == '(' && p[1] == '?' && p.last() == ')'
        }),
{
    assert((flags / 2) % 2 == 1 <==> flags & 2 != 0) by (bit_vector);
    assert((flags / 8) % 2 == 1 <==> flags & 8 != 0) by (bit_vector);
    assert((flags / 16) % 2 == 1 <==> flags & 16 != 0) by (bit_vector);
    assert((flags / 64) % 2 == 1 <==> flags & 64 != 0) by (bit_vector);
    reveal_strlit("(?");
    reveal_strlit(")");
    let i = if pattern::has_flag(flags, 2) {
        seq!['i']
    } else {
        Seq::empty()
    };
    let m = if pattern::has_flag(flags, 8) {
        seq!['m']
    } else {
        Seq::empty()
    };
    let s = if pattern::has_flag(flags, 16) {
        seq!['s']
    } else {
        Seq::empty()
    };
    let x = if pattern::has_flag(flags, 64) {
        seq!['x']
    } else {
        Seq::empty()
    };
    let letters = pattern::flag_letters(flags);
    assert(letters == i + m + s + x);
    let p = pattern::flags_prefix(flags);
    if letters.len() > 0 {
        let a = i.len() as int;
        let b = a + m.len();
        let c = b + s.len();
        assert(p.len() == letters.len() + 3);
        assert forall|k: int| 0 <= k < letters.len() implies p[k + 2] == #[trigger] letters[k] by {}
        if i.len() > 0 {
            assert(letters[0] == 'i');
            assert(p[2] == 'i');
        }
        if m.len() > 0 {
            assert(letters[a] == 'm');
            assert(p[a + 2] == 'm');
        }
        if s.len() > 0 {
            assert(letters[b] == 's');
            assert(p[b + 2] == 's');
        }
        if x.len() > 0 {
            assert(letters[c] == 'x');
            assert(p[c + 2] == 'x');
        }
    }
}

/// A pattern matches only what begins at once: the text matched begins the text that
/// is searched, and a match that is found further on is none.
pub proof fn matches_begin_at_once(pattern: Seq<char>, before: Seq<char>, rest: Seq<char>)
    ensures
        match pattern::matched(pattern, before, rest) {
            Some(v) => pattern::found_at(pattern, before, rest) == Some((Seq::<char>::empty(), v))
                && v.len() <= rest.len() && rest.take(v.len() as int) == v,
            None => pattern::found_at(pattern, before, rest) matches Some((a, b)) ==> a.len() > 0,
        },
{
    if let Some((a, b)) = pattern::found_at(pattern, before, rest) {
        if a.len() == 0 {
            assert(a =~= Seq::empty());
            assert(a + b =~= b);
        }
    }
}

} // verus!
