//! What stands between the pieces of a text that is written of a tree.

use vstd::prelude::*;
use crate::recons_rules::RuleSet;
use crate::reconstruct;
use crate::tree;

verus! {

/// Whether a character is an ASCII letter, an ASCII digit or an underscore.
pub open spec fn is_plain_word(c: char) -> bool {
    'a' <= c <= 'z' || 'A' <= c <= 'Z' || '0' <= c <= '9' || c == '_'
}

/// Whether two pieces meet in characters that a word can hold: one that ends and one
/// that begins with an ASCII letter, an ASCII digit, an underscore, or a character
/// beyond ASCII that `char::is_alphanumeric` holds of.
pub open spec fn meet_in_words(a: Seq<char>, b: Seq<char>) -> bool {
    &&& a.len() > 0 && b.len() > 0
    &&& is_plain_word(a.last()) || a.last() as u32 > 127 && reconstruct::alphanumeric(a.last())
    &&& is_plain_word(b.first()) || b.first() as u32 > 127 && reconstruct::alphanumeric(b.first())
}

/// Whether piece `i` stands in a text at `at[i]`, with `sep` behind it if it meets the
/// next one in words, and with nothing between them otherwise.
pub open spec fn stands(
    text: Seq<char>,
    pieces: Seq<Seq<char>>,
    sep: Seq<char>,
    at: Seq<int>,
    i: int,
) -> bool {
    let end = at[i] + pieces[i].len();
    &&& 0 <= at[i] && end <= text.len()
    &&& text.subrange(at[i], end) == pieces[i]
    &&& i + 1 < pieces.len() ==> if meet_in_words(pieces[i], pieces[i + 1]) {
        &&& at[i + 1] == end + sep.len()
        &&& at[i + 1] <= text.len()
        &&& text.subrange(end, at[i + 1]) == sep
    } else {
        at[i + 1] == end
    }
    &&& i + 1 == pieces.len() ==> end == text.len()
}

/// Whether pieces stand in a text one behind another, piece `i` at `at[i]`, with
/// `sep` between two that meet in words, with nothing between others, and with
/// nothing around them.
pub open spec fn stand_apart(
    text: Seq<char>,
    pieces: Seq<Seq<char>>,
    sep: Seq<char>,
    at: Seq<int>,
) -> bool {
    &&& at.len() == pieces.len()
    &&& pieces.len() == 0 ==> text.len() == 0
    &&& pieces.len() > 0 ==> at[0] == 0
    &&& forall|i: int| 0 <= i < pieces.len() ==> #[trigger] stands(text, pieces, sep, at, i)
}

proof fn lemma_stand_apart(pieces: Seq<Seq<char>>, sep: Seq<char>, k: nat) -> (at: Seq<int>)
    requires
        k <= pieces.len(),
    ensures
        stand_apart(
            reconstruct::joined_pieces(pieces, Some(sep), k),
            pieces.take(k as int),
            sep,
            at,
        ),
    decreases k,
{
    if k == 0 {
        Seq::empty()
    } else {
        let front = lemma_stand_apart(pieces, sep, (k - 1) as nat);
        let before = reconstruct::joined_pieces(pieces, Some(sep), (k - 1) as nat);
        let text = reconstruct::joined_pieces(pieces, Some(sep), k);
        let some = pieces.take(k - 1);
        let all = pieces.take(k as int);
        let last = pieces[k - 1];
        let from = text.len() - last.len();
        let at = front.push(from);
        assert(all =~= some.push(last));
        assert(text.subrange(from, text.len() as int) =~= last);
        assert(text.take(before.len() as int) =~= before);
        assert forall|i: int| 0 <= i < all.len() implies #[trigger] stands(
            text,
            all,
            sep,
            at,
            i,
        ) by {
            if i < k - 1 {
                lemma_stands_on(before, text, some, last, sep, front, from, i);
            }
        }
        if k == 1 {
            assert(text =~= last);
        }
        at
    }
}

proof fn lemma_stands_on(
    before: Seq<char>,
    text: Seq<char>,
    some: Seq<Seq<char>>,
    last: Seq<char>,
    sep: Seq<char>,
    front: Seq<int>,
    from: int,
    i: int,
)
    requires
        0 <= i < some.len(),
        front.len() == some.len(),
        stands(before, some, sep, front, i),
        from == text.len() - last.len(),
        before.len() <= from,
        text.take(before.len() as int) == before,
        meet_in_words(some.last(), last) ==> text == before + sep + last,
        !meet_in_words(some.last(), last) ==> text == before + last,
    ensures
        stands(text, some.push(last), sep, front.push(from), i),
{
    let all = some.push(last);
    let at = front.push(from);
    let end = at[i] + all[i].len();
    assert(text.subrange(at[i], end) =~= before.subrange(at[i], end));
    if i + 1 < some.len() {
        assert(all[i + 1] == some[i + 1]);
        if meet_in_words(all[i], all[i + 1]) {
            assert(text.subrange(end, at[i + 1]) =~= before.subrange(end, at[i + 1]));
        }
    } else {
        assert(some.last() == all[i] && all[i + 1] == last);
        assert(at[i + 1] == from);
        if meet_in_words(all[i], all[i + 1]) {
            assert(text.subrange(end, from) =~= sep);
        }
    }
}

/// Where there is a separator, it stands between any two adjacent pieces of the text
/// of a tree that meet in letters, digits or underscores, and nowhere else; the
/// pieces follow each other in order, and nothing else is written.
pub proof fn words_are_kept_apart(
    m: reconstruct::ReconsModel,
    node: tree::Node,
    sep: Seq<char>,
    text: Seq<char>,
    pieces: Seq<Seq<char>>,
) -> (at: Seq<int>)
    requires
        reconstruct::node_pieces(m, node) == Ok::<Seq<Seq<char>>, reconstruct::FaultModel>(
            pieces,
        ),
        reconstruct::rendered(m, node, Some(sep)) == Ok::<Seq<char>, reconstruct::FaultModel>(
            text,
        ),
    ensures
        stand_apart(text, pieces, sep, at),
{
    assert(pieces.take(pieces.len() as int) =~= pieces);
    lemma_stand_apart(pieces, sep, pieces.len())
}

/// A blank is the separator wherever the grammar ignores it, else a line break, else
/// a tab; there is one wherever the grammar ignores one of them.
pub proof fn blanks_separate_first(g: RuleSet)
    ensures
        reconstruct::is_ignored(g, " "@) ==> reconstruct::separator_of(g) == Some(" "@),
        !reconstruct::is_ignored(g, " "@) && reconstruct::is_ignored(g, "\n"@)
            ==> reconstruct::separator_of(g) == Some("\n"@),
        !reconstruct::is_ignored(g, " "@) && !reconstruct::is_ignored(g, "\n"@)
            && reconstruct::is_ignored(g, "\t"@) ==> reconstruct::separator_of(g) == Some("\t"@),
{
}

} // verus!
