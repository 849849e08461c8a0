//! Characters, token sequences, and their concatenation.
//!
//! All token logic works over `Seq<char>` views; a token never splits a
//! Unicode scalar value because it is built from whole characters.

use vstd::prelude::*;

verus! {

/// Concatenation of a sequence of token texts, in order.
pub open spec fn concat_tokens(ts: Seq<Seq<char>>) -> Seq<char>
    decreases ts.len(),
{
    if ts.len() == 0 {
        Seq::empty()
    } else {
        concat_tokens(ts.drop_last()) + ts.last()
    }
}

/// The texts of a sequence of owned tokens.
pub open spec fn token_views(ts: Seq<String>) -> Seq<Seq<char>> {
    ts.map_values(|s: String| s@)
}

/// Appending one token extends the concatenation by exactly that token.
pub proof fn lemma_concat_tokens_push(ts: Seq<Seq<char>>, t: Seq<char>)
    ensures
        concat_tokens(ts.push(t)) == concat_tokens(ts) + t,
{
    assert(ts.push(t).drop_last() =~= ts);
    assert(ts.push(t).last() == t);
}

/// `token_views` distributes over `push`.
pub proof fn lemma_token_views_push(ts: Seq<String>, t: String)
    ensures
        token_views(ts.push(t)) == token_views(ts).push(t@),
{
    assert(token_views(ts.push(t)) =~= token_views(ts).push(t@));
}

/// The characters of a text, in order.
pub fn str_to_chars(s: &str) -> (r: Vec<char>)
    ensures
        r@ == s@,
{
    let mut out: Vec<char> = Vec::new();
    for c in it: s.chars()
        invariant
            it.seq() == s@,
            out@ == it.seq().take(it.index() as int),
    {
        out.push(c);
    }
    proof {
        assert(out@ =~= s@);
    }
    out
}

/// Concatenation of a one-token head and a tail splits as expected.
pub proof fn lemma_concat_head(head: Seq<char>, tail: Seq<Seq<char>>)
    ensures
        concat_tokens(seq![head] + tail) == head + concat_tokens(tail),
    decreases tail.len(),
{
    if tail.len() == 0 {
        assert(seq![head] + tail =~= seq![head]);
        assert(seq![head].drop_last() =~= Seq::<Seq<char>>::empty());
        assert(seq![head].last() == head);
        assert(concat_tokens(Seq::<Seq<char>>::empty()) == Seq::<char>::empty());
        assert(concat_tokens(seq![head]) == concat_tokens(seq![head].drop_last())
            + seq![head].last());
        assert(Seq::<char>::empty() + head =~= head);
        assert(head + Seq::<char>::empty() =~= head);
    } else {
        let joined = seq![head] + tail;
        assert(joined.drop_last() =~= seq![head] + tail.drop_last());
        lemma_concat_head(head, tail.drop_last());
        assert(joined.last() == tail.last());
        assert(head + concat_tokens(tail.drop_last()) + tail.last() =~= head + concat_tokens(
            tail,
        ));
    }
}

/// The characters `a..b` of a text, as an owned list.
pub fn char_slice(text: &Vec<char>, a: usize, b: usize) -> (r: Vec<char>)
    requires
        a <= b <= text@.len(),
    ensures
        r@ == text@.subrange(a as int, b as int),
{
    let mut out: Vec<char> = Vec::new();
    let mut i: usize = a;
    while i < b
        invariant
            a <= i <= b <= text@.len(),
            out@ == text@.subrange(a as int, i as int),
        decreases b - i,
    {
        out.push(text[i]);
        proof {
            assert(text@.subrange(a as int, i + 1) =~= text@.subrange(a as int, i as int).push(
                text@[i as int],
            ));
        }
        i = i + 1;
    }
    out
}

/// Relies on `Iterator::collect` for `String`: the text holding exactly these
/// characters, in order.
#[verifier::external_body]
pub fn chars_to_string(cs: &Vec<char>) -> (r: String)
    ensures
        r@ == cs@,
{
    cs.iter().collect()
}

} // verus!
