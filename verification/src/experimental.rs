//! An alternate, compression-driven vocabulary experiment.
//!
//! Independent of the colony: a plain vocabulary of token-to-id pairs and a
//! longest-match greedy tokenizer over it. Its fitness measure divides the
//! input size by the estimated compressed size; the integer size estimate is
//! computed here, the final ratio is left to the caller.

use vstd::prelude::*;

use crate::text::{char_slice, chars_to_string, concat_tokens, lemma_concat_head, str_to_chars, token_views};

verus! {

/// The experimental vocabulary: token text to numeric id, ids handed out in
/// insertion order.
pub struct ExperimentalAlgo {
    pub vocab: Vec<(String, usize)>,
    pub next_id: usize,
}

/// The entries of a vocabulary as plain values: token text and id.
pub open spec fn vocab_model(v: Seq<(String, usize)>) -> Seq<(Seq<char>, int)> {
    v.map_values(|p: (String, usize)| (p.0@, p.1 as int))
}

/// Length of the longest vocabulary entry that matches `text` at `cursor`,
/// considered over the given entries. Two distinct entries of equal length
/// can never match the same position, so the longest match is a single text.
pub open spec fn best_match_len(
    entries: Seq<(String, usize)>,
    text: Seq<char>,
    cursor: int,
) -> Option<int>
    decreases entries.len(),
{
    if entries.len() == 0 {
        None
    } else {
        let prev = best_match_len(entries.drop_last(), text, cursor);
        let e = (entries.last().0)@;
        let found = e.len() >= 1 && cursor + e.len() <= text.len() && text.subrange(
            cursor,
            cursor + e.len(),
        ) == e;
        if found && (prev is None || e.len() > prev->0) {
            Some(e.len() as int)
        } else {
            prev
        }
    }
}

/// The greedy longest-match segmentation: at every position emit the longest
/// matching entry, or the single next character when nothing matches.
pub open spec fn spec_exp_tokens(
    entries: Seq<(String, usize)>,
    text: Seq<char>,
    cursor: int,
) -> Seq<Seq<char>>
    decreases text.len() - cursor,
{
    if cursor < 0 || cursor >= text.len() {
        Seq::empty()
    } else {
        match best_match_len(entries, text, cursor) {
            Option::Some(l) => {
                let step = if 1 <= l <= text.len() - cursor {
                    l
                } else {
                    1
                };
                seq![text.subrange(cursor, cursor + step)] + spec_exp_tokens(
                    entries,
                    text,
                    cursor + step,
                )
            },
            Option::None => {
                seq![text.subrange(cursor, cursor + 1)] + spec_exp_tokens(entries, text, cursor + 1)
            },
        }
    }
}

/// Law: the greedy segmentation reconstructs its input — concatenating the
/// tokens emitted from `cursor` on yields the rest of the text exactly.
pub proof fn lemma_exp_tokens_reconstruct(
    entries: Seq<(String, usize)>,
    text: Seq<char>,
    cursor: int,
)
    requires
        0 <= cursor <= text.len(),
    ensures
        concat_tokens(spec_exp_tokens(entries, text, cursor)) == text.skip(cursor),
    decreases text.len() - cursor,
{
    if cursor >= text.len() {
        assert(text.skip(cursor) =~= Seq::<char>::empty());
    } else {
        let step: int = match best_match_len(entries, text, cursor) {
            Option::Some(l) => if 1 <= l <= text.len() - cursor {
                l
            } else {
                1
            },
            Option::None => 1,
        };
        lemma_exp_tokens_reconstruct(entries, text, cursor + step);
        let head = text.subrange(cursor, cursor + step);
        let tail = spec_exp_tokens(entries, text, cursor + step);
        assert(spec_exp_tokens(entries, text, cursor) == seq![head] + tail);
        lemma_concat_head(head, tail);
        assert(head + text.skip(cursor + step) =~= text.skip(cursor));
    }
}

/// The seed tokens that training installs before measuring fitness.
pub open spec fn train_words() -> Seq<Seq<char>> {
    seq!["the"@, "and"@, "ing"@, "tion"@, " "@]
}

/// Adding one word: nothing changes when the text is already present;
/// otherwise the word is appended under the next id.
pub open spec fn spec_add_word_m(m: Seq<(Seq<char>, int)>, next: int, w: Seq<char>) -> (
    Seq<(Seq<char>, int)>,
    int,
) {
    if exists|i: int| 0 <= i < m.len() && (#[trigger] m[i]).0 == w {
        (m, next)
    } else {
        (m.push((w, next)), next + 1)
    }
}

/// Adding a list of words, in order, against the growing vocabulary.
pub open spec fn spec_train_m(m: Seq<(Seq<char>, int)>, next: int, ws: Seq<Seq<char>>) -> (
    Seq<(Seq<char>, int)>,
    int,
)
    decreases ws.len(),
{
    if ws.len() == 0 {
        (m, next)
    } else {
        let step = spec_add_word_m(m, next, ws[0]);
        spec_train_m(step.0, step.1, ws.drop_first())
    }
}

/// Total dictionary overhead of the entries: each one costs its character
/// count plus four bookkeeping bytes.
pub open spec fn spec_vocab_overhead(entries: Seq<(String, usize)>) -> nat
    decreases entries.len(),
{
    if entries.len() == 0 {
        0
    } else {
        (spec_vocab_overhead(entries.drop_last()) + (entries.last().0)@.len() + 4) as nat
    }
}

/// Saturation at the machine word.
pub open spec fn sat_usize(x: nat) -> usize {
    if x > usize::MAX {
        usize::MAX
    } else {
        x as usize
    }
}

/// Estimated compressed size of `text` under the vocabulary: two bytes per
/// emitted token plus the dictionary overhead.
pub open spec fn spec_compressed_size(entries: Seq<(String, usize)>, text: Seq<char>) -> nat {
    2 * spec_exp_tokens(entries, text, 0).len() + spec_vocab_overhead(entries)
}

/// Whether the entry text matches the text at `cursor`.
fn matches_at(text: &Vec<char>, entry: &Vec<char>, cursor: usize) -> (b: bool)
    requires
        cursor <= text@.len(),
    ensures
        b == (cursor + entry@.len() <= text@.len() && text@.subrange(
            cursor as int,
            cursor + entry@.len(),
        ) == entry@),
{
    let tlen = text.len();
    let elen = entry.len();
    if elen > tlen - cursor {
        return false;
    }
    let mut i: usize = 0;
    while i < elen
        invariant
            tlen == text@.len(),
            elen == entry@.len(),
            cursor + elen <= tlen,
            i <= elen,
            forall|q: int| 0 <= q < i ==> text@[cursor + q] == entry@[q],
        decreases elen - i,
    {
        if text[cursor + i] != entry[i] {
            proof {
                assert(text@.subrange(cursor as int, cursor + entry@.len())[i as int]
                    != entry@[i as int]);
            }
            return false;
        }
        i = i + 1;
    }
    proof {
        assert(text@.subrange(cursor as int, cursor + entry@.len()) =~= entry@);
    }
    true
}

impl ExperimentalAlgo {
    /// Entries have distinct, non-empty token texts — what insertion through
    /// `train` maintains, and what keeps the tokenizer moving forward.
    pub open spec fn wf(self) -> bool {
        &&& forall|i: int, j: int|
            0 <= i < j < self.vocab@.len() ==> (#[trigger] self.vocab@[i].0)@ != (
            #[trigger] self.vocab@[j].0)@
        &&& forall|i: int| 0 <= i < self.vocab@.len() ==> (#[trigger] self.vocab@[i].0)@.len() >= 1
    }

    /// An empty vocabulary; ids start at 0.
    pub fn new() -> (r: ExperimentalAlgo)
        ensures
            r.wf(),
            r.vocab@.len() == 0,
            r.next_id == 0,
    {
        ExperimentalAlgo { vocab: Vec::new(), next_id: 0 }
    }

    /// Install one word unless its text is already present; a new entry gets
    /// the next id.
    fn add_word(&mut self, w: &str)
        requires
            old(self).wf(),
            w@.len() >= 1,
            old(self).next_id < usize::MAX,
        ensures
            final(self).wf(),
            old(self).next_id <= final(self).next_id <= old(self).next_id + 1,
            (vocab_model(final(self).vocab@), final(self).next_id as int) == spec_add_word_m(
                vocab_model(old(self).vocab@),
                old(self).next_id as int,
                w@,
            ),
    {
        let ws: String = w.to_owned();
        let mut i: usize = 0;
        while i < self.vocab.len()
            invariant
                ws@ == w@,
                i <= self.vocab@.len(),
                old(self).wf(),
                self.vocab@ == old(self).vocab@,
                self.next_id == old(self).next_id,
                forall|q: int| 0 <= q < i ==> (#[trigger] self.vocab@[q].0)@ != w@,
            decreases self.vocab@.len() - i,
        {
            if self.vocab[i].0 == ws {
                proof {
                    let m = vocab_model(self.vocab@);
                    assert(m[i as int].0 == w@);
                    assert(self.vocab@ == old(self).vocab@);
                    assert(old(self).wf());
                    assert(self.wf());
                }
                return ;
            }
            i = i + 1;
        }
        proof {
            let m = vocab_model(self.vocab@);
            assert forall|q: int| 0 <= q < m.len() implies (#[trigger] m[q]).0 != w@ by {
                assert((self.vocab@[q].0)@ != w@);
            }
        }
        let ghost prev = self.vocab@;
        let id = self.next_id;
        self.vocab.push((ws, id));
        self.next_id = id + 1;
        proof {
            assert(vocab_model(self.vocab@) =~= vocab_model(prev).push((w@, id as int)));
        }
    }

    /// Seed the vocabulary with a handful of common English fragments; each
    /// missing one is appended under the next id. Fitness reporting is the
    /// caller's concern, so the training text itself plays no part here.
    pub fn train(&mut self, _data: &str)
        requires
            old(self).wf(),
            old(self).next_id + 5 <= usize::MAX,
        ensures
            final(self).wf(),
            (vocab_model(final(self).vocab@), final(self).next_id as int) == spec_train_m(
                vocab_model(old(self).vocab@),
                old(self).next_id as int,
                train_words(),
            ),
    {
        proof {
            reveal_strlit("the");
            reveal_strlit("and");
            reveal_strlit("ing");
            reveal_strlit("tion");
            reveal_strlit(" ");
        }
        let ghost ws = train_words();
        let ghost m0 = vocab_model(old(self).vocab@);
        let ghost n0 = old(self).next_id as int;
        self.add_word("the");
        let ghost s1 = spec_add_word_m(m0, n0, "the"@);
        self.add_word("and");
        let ghost s2 = spec_add_word_m(s1.0, s1.1, "and"@);
        self.add_word("ing");
        let ghost s3 = spec_add_word_m(s2.0, s2.1, "ing"@);
        self.add_word("tion");
        let ghost s4 = spec_add_word_m(s3.0, s3.1, "tion"@);
        self.add_word(" ");
        proof {
            let s5 = spec_add_word_m(s4.0, s4.1, " "@);
            let d1 = ws.drop_first();
            let d2 = d1.drop_first();
            let d3 = d2.drop_first();
            let d4 = d3.drop_first();
            let d5 = d4.drop_first();
            assert(ws[0] == "the"@);
            assert(d1 =~= seq!["and"@, "ing"@, "tion"@, " "@]);
            assert(d1[0] == "and"@);
            assert(d2 =~= seq!["ing"@, "tion"@, " "@]);
            assert(d2[0] == "ing"@);
            assert(d3 =~= seq!["tion"@, " "@]);
            assert(d3[0] == "tion"@);
            assert(d4 =~= seq![" "@]);
            assert(d4[0] == " "@);
            assert(d5 =~= Seq::<Seq<char>>::empty());
            assert(spec_train_m(m0, n0, ws) == spec_train_m(s1.0, s1.1, d1));
            assert(spec_train_m(s1.0, s1.1, d1) == spec_train_m(s2.0, s2.1, d2));
            assert(spec_train_m(s2.0, s2.1, d2) == spec_train_m(s3.0, s3.1, d3));
            assert(spec_train_m(s3.0, s3.1, d3) == spec_train_m(s4.0, s4.1, d4));
            assert(spec_train_m(s4.0, s4.1, d4) == spec_train_m(s5.0, s5.1, d5));
            assert(spec_train_m(s5.0, s5.1, d5) == s5);
            assert(spec_train_m(m0, n0, ws) == s5);
        }
    }

    /// Estimated compressed size of `text` under this vocabulary, saturating
    /// at the machine word: two bytes per emitted token plus the dictionary
    /// overhead. The caller divides the input size by this to obtain the
    /// compression-ratio fitness.
    pub fn compressed_size(&self, text: &str) -> (r: usize)
        requires
            self.wf(),
        ensures
            r == sat_usize(spec_compressed_size(self.vocab@, text@)),
    {
        let tokens = self.tokenize(text);
        let count = tokens.len();
        proof {
            assert(token_views(tokens@).len() == tokens@.len());
        }
        let mut acc: usize = count.saturating_add(count);
        let mut i: usize = 0;
        proof {
            assert(self.vocab@.take(0) =~= Seq::<(String, usize)>::empty());
        }
        while i < self.vocab.len()
            invariant
                self.wf(),
                i <= self.vocab@.len(),
                acc == sat_usize(
                    2 * spec_exp_tokens(self.vocab@, text@, 0).len() + spec_vocab_overhead(
                        self.vocab@.take(i as int),
                    ),
                ),
            decreases self.vocab@.len() - i,
        {
            let entry_chars = str_to_chars(self.vocab[i].0.as_str());
            proof {
                assert(self.vocab@.take(i + 1).drop_last() =~= self.vocab@.take(i as int));
                assert(self.vocab@.take(i + 1).last() == self.vocab@[i as int]);
            }
            acc = acc.saturating_add(entry_chars.len()).saturating_add(4);
            i = i + 1;
        }
        proof {
            assert(self.vocab@.take(self.vocab@.len() as int) =~= self.vocab@);
        }
        acc
    }

    /// Greedy longest-match segmentation of `text` against the vocabulary.
    /// The result is exactly `spec_exp_tokens` — deterministic — and its
    /// concatenation reproduces `text`.
    pub fn tokenize(&self, text: &str) -> (r: Vec<String>)
        requires
            self.wf(),
        ensures
            token_views(r@) == spec_exp_tokens(self.vocab@, text@, 0),
            concat_tokens(token_views(r@)) == text@,
    {
        let chars = str_to_chars(text);
        let n = chars.len();
        let mut tokens: Vec<String> = Vec::new();
        let mut cursor: usize = 0;
        proof {
            assert(token_views(tokens@) =~= Seq::<Seq<char>>::empty());
            assert(Seq::<Seq<char>>::empty() + spec_exp_tokens(self.vocab@, chars@, 0)
                =~= spec_exp_tokens(self.vocab@, chars@, 0));
        }
        while cursor < n
            invariant
                self.wf(),
                n == chars@.len(),
                chars@ == text@,
                cursor <= n,
                spec_exp_tokens(self.vocab@, chars@, 0) == token_views(tokens@)
                    + spec_exp_tokens(self.vocab@, chars@, cursor as int),
            decreases n - cursor,
        {
            // Longest matching entry at the cursor, tracked against the
            // prefix of entries examined so far.
            let mut best: usize = 0;
            let mut have_best: bool = false;
            let mut i: usize = 0;
            while i < self.vocab.len()
                invariant
                    self.wf(),
                    n == chars@.len(),
                    cursor < n,
                    i <= self.vocab@.len(),
                    have_best ==> best_match_len(self.vocab@.take(i as int), chars@, cursor as int)
                        == Some(best as int),
                    !have_best ==> best_match_len(self.vocab@.take(i as int), chars@, cursor as int)
                        is None,
                    have_best ==> 1 <= best && cursor + best <= n,
                decreases self.vocab@.len() - i,
            {
                let entry_chars = str_to_chars(self.vocab[i].0.as_str());
                let m = matches_at(&chars, &entry_chars, cursor);
                proof {
                    assert(self.vocab@.take(i + 1).drop_last() =~= self.vocab@.take(i as int));
                    assert(self.vocab@.take(i + 1).last() == self.vocab@[i as int]);
                }
                if m && entry_chars.len() >= 1 && (!have_best || entry_chars.len() > best) {
                    best = entry_chars.len();
                    have_best = true;
                }
                i = i + 1;
            }
            proof {
                assert(self.vocab@.take(self.vocab@.len() as int) =~= self.vocab@);
            }
            let step: usize = if have_best {
                best
            } else {
                1
            };
            let piece = char_slice(&chars, cursor, cursor + step);
            let tok = chars_to_string(&piece);
            let ghost prev_tokens = tokens@;
            tokens.push(tok);
            proof {
                assert(token_views(tokens@) =~= token_views(prev_tokens).push(
                    chars@.subrange(cursor as int, cursor + step),
                ));
                assert(spec_exp_tokens(self.vocab@, chars@, cursor as int) == seq![
                    chars@.subrange(cursor as int, cursor + step),
                ] + spec_exp_tokens(self.vocab@, chars@, cursor + step));
                assert(token_views(prev_tokens) + spec_exp_tokens(self.vocab@, chars@, cursor as int)
                    =~= token_views(tokens@) + spec_exp_tokens(
                    self.vocab@,
                    chars@,
                    cursor + step,
                ));
            }
            cursor = cursor + step;
        }
        proof {
            assert(spec_exp_tokens(self.vocab@, chars@, n as int) =~= Seq::<Seq<char>>::empty());
            assert(token_views(tokens@) + Seq::<Seq<char>>::empty() =~= token_views(tokens@));
            lemma_exp_tokens_reconstruct(self.vocab@, chars@, 0);
            assert(chars@.skip(0) =~= chars@);
        }
        tokens
    }
}

} // verus!
