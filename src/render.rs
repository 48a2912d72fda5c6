use vstd::prelude::*;
use vstd::string::to_string_from_display_ensures;

verus! {

/// The words of `ws` in turn, each followed by a single space.
pub open spec fn spaced(ws: Seq<String>) -> Seq<char>
    decreases ws.len(),
{
    if ws.len() == 0 {
        Seq::empty()
    } else {
        spaced(ws.drop_last()) + ws.last()@ + seq![' ']
    }
}

/// `words` holds, at each position, what `to_string` gives for the value of
/// `s` at that position.
pub open spec fn displays<T: std::fmt::Display>(s: Seq<T>, words: Seq<String>) -> bool {
    &&& words.len() == s.len()
    &&& forall|i: int| 0 <= i < s.len() ==> to_string_from_display_ensures::<T>(&s[i], words[i])
}

/// `text` is the values of `s` in turn, each written by its `Display` impl and
/// followed by a single space.
pub open spec fn renders<T: std::fmt::Display>(s: Seq<T>, text: Seq<char>) -> bool {
    exists|words: Seq<String>| displays(s, words) && text == spaced(words)
}

/// Spacing two runs of words one after the other is spacing them together.
pub proof fn lemma_spaced_concat(a: Seq<String>, b: Seq<String>)
    ensures
        spaced(a + b) == spaced(a) + spaced(b),
    decreases b.len(),
{
    if b.len() == 0 {
        assert(a + b == a);
    } else {
        lemma_spaced_concat(a, b.drop_last());
        assert((a + b).drop_last() == a + b.drop_last());
        assert((a + b).last() == b.last());
    }
}

} // verus!
