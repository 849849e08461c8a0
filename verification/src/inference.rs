//! The inference-time tokenizer: a persisted, scored vocabulary applied to
//! arbitrary text by deterministic, score-greedy segmentation.
//!
//! At every position all candidate substrings up to the vocabulary's longest
//! token are examined; the one with the strictly highest score wins, a tie
//! goes to the longer candidate, and a position with no match falls back to
//! the single next character. No randomness: the output is a function of the
//! vocabulary and the input alone.

use vstd::prelude::*;

use crate::codec::spec_parse_line;
use crate::codec::parse_vocab_line;
use crate::text::{
    char_slice, chars_to_string, concat_tokens, lemma_concat_head, str_to_chars, token_views,
};

verus! {

/// A loaded vocabulary: scored entries with distinct token texts, and the
/// character count of the longest token.
pub struct Vocabulary {
    pub entries: Vec<(String, u64)>,
    pub max_token_chars: usize,
}

/// The mapping a list of entries stands for; a later entry for the same text
/// overrides an earlier one, as repeated insertion would.
pub open spec fn vocab_map(entries: Seq<(String, u64)>) -> Map<Seq<char>, u64>
    decreases entries.len(),
{
    if entries.len() == 0 {
        Map::empty()
    } else {
        vocab_map(entries.drop_last()).insert((entries.last().0)@, entries.last().1)
    }
}

impl View for Vocabulary {
    type V = Map<Seq<char>, u64>;

    open spec fn view(&self) -> Map<Seq<char>, u64> {
        vocab_map(self.entries@)
    }
}

/// The best candidate at `cursor` among lengths 1 to `depth`: highest score
/// first, the longer of two equal scores second. Nothing when no candidate
/// is in the vocabulary.
pub open spec fn spec_best_candidate(
    m: Map<Seq<char>, u64>,
    text: Seq<char>,
    cursor: int,
    depth: int,
) -> Option<(int, u64)>
    decreases depth,
{
    if depth <= 0 {
        None
    } else {
        let prev = spec_best_candidate(m, text, cursor, depth - 1);
        let key = text.subrange(cursor, cursor + depth);
        if m.dom().contains(key) {
            let sc = m[key];
            match prev {
                Option::Some(p) => if sc >= p.1 {
                    Some((depth, sc))
                } else {
                    prev
                },
                Option::None => Some((depth, sc)),
            }
        } else {
            prev
        }
    }
}

/// The score-greedy segmentation: at every position emit the best candidate,
/// or the single next character when the vocabulary offers none.
pub open spec fn spec_greedy_tokens(
    m: Map<Seq<char>, u64>,
    max_len: int,
    text: Seq<char>,
    cursor: int,
) -> Seq<Seq<char>>
    decreases text.len() - cursor,
{
    if cursor < 0 || cursor >= text.len() {
        Seq::empty()
    } else {
        let remaining = text.len() - cursor;
        let depth = if max_len < remaining {
            max_len
        } else {
            remaining as int
        };
        match spec_best_candidate(m, text, cursor, depth) {
            Option::Some(p) => {
                let step = if 1 <= p.0 <= remaining {
                    p.0
                } else {
                    1
                };
                seq![text.subrange(cursor, cursor + step)] + spec_greedy_tokens(
                    m,
                    max_len,
                    text,
                    cursor + step,
                )
            },
            Option::None => {
                seq![text.subrange(cursor, cursor + 1)] + spec_greedy_tokens(
                    m,
                    max_len,
                    text,
                    cursor + 1,
                )
            },
        }
    }
}

/// Law: the greedy segmentation reconstructs its input — concatenating the
/// tokens emitted from `cursor` on yields the rest of the text exactly, for
/// every vocabulary and every input.
pub proof fn lemma_greedy_reconstruct(
    m: Map<Seq<char>, u64>,
    max_len: int,
    text: Seq<char>,
    cursor: int,
)
    requires
        0 <= cursor <= text.len(),
    ensures
        concat_tokens(spec_greedy_tokens(m, max_len, text, cursor)) == text.skip(cursor),
    decreases text.len() - cursor,
{
    if cursor >= text.len() {
        assert(text.skip(cursor) =~= Seq::<char>::empty());
    } else {
        let remaining = text.len() - cursor;
        let depth = if max_len < remaining {
            max_len
        } else {
            remaining as int
        };
        let step: int = match spec_best_candidate(m, text, cursor, depth) {
            Option::Some(p) => if 1 <= p.0 <= remaining {
                p.0
            } else {
                1
            },
            Option::None => 1,
        };
        lemma_greedy_reconstruct(m, max_len, text, cursor + step);
        let head = text.subrange(cursor, cursor + step);
        let tail = spec_greedy_tokens(m, max_len, text, cursor + step);
        assert(spec_greedy_tokens(m, max_len, text, cursor) == seq![head] + tail);
        lemma_concat_head(head, tail);
        assert(head + text.skip(cursor + step) =~= text.skip(cursor));
    }
}

/// Law: inference is deterministic — the segmentation is a mathematical
/// function of the vocabulary and the input alone, so two runs over equal
/// vocabularies and equal inputs emit equal token sequences.
pub proof fn lemma_greedy_deterministic(
    m1: Map<Seq<char>, u64>,
    max1: int,
    t1: Seq<char>,
    m2: Map<Seq<char>, u64>,
    max2: int,
    t2: Seq<char>,
)
    requires
        m1 == m2,
        max1 == max2,
        t1 == t2,
    ensures
        spec_greedy_tokens(m1, max1, t1, 0) == spec_greedy_tokens(m2, max2, t2, 0),
{
}

/// An entry's text and score are in the mapping, under distinct texts.
proof fn lemma_vocab_map_index(v: Seq<(String, u64)>, i: int)
    requires
        forall|a: int, b: int| 0 <= a < b < v.len() ==> (#[trigger] v[a].0)@ != (#[trigger] v[b].0)@,
        0 <= i < v.len(),
    ensures
        vocab_map(v).contains_pair((v[i].0)@, v[i].1),
    decreases v.len(),
{
    if i < v.len() - 1 {
        lemma_vocab_map_index(v.drop_last(), i);
        assert((v[i].0)@ != (v[v.len() - 1].0)@);
    }
}

/// The mapping's domain is exactly the entry texts.
proof fn lemma_vocab_map_dom(v: Seq<(String, u64)>, k: Seq<char>)
    ensures
        vocab_map(v).dom().contains(k) <==> exists|i: int|
            0 <= i < v.len() && (#[trigger] v[i].0)@ == k,
    decreases v.len(),
{
    if v.len() > 0 {
        lemma_vocab_map_dom(v.drop_last(), k);
        if (v.last().0)@ == k {
            assert((v[v.len() - 1].0)@ == k);
        } else if vocab_map(v).dom().contains(k) {
            let i = choose|i: int| 0 <= i < v.drop_last().len() && (#[trigger] v.drop_last()[i].0)@
                == k;
            assert((v[i].0)@ == k);
        } else {
            if exists|i: int| 0 <= i < v.len() && (#[trigger] v[i].0)@ == k {
                let i = choose|i: int| 0 <= i < v.len() && (#[trigger] v[i].0)@ == k;
                assert(i < v.len() - 1);
                assert((v.drop_last()[i].0)@ == k);
            }
        }
    }
}

/// The header line of a persisted vocabulary file.
pub open spec fn spec_is_header(l: Seq<char>) -> bool {
    l.len() >= 6 && l.subrange(0, 6) == seq!['T', 'o', 'k', 'e', 'n', '\t']
}

/// Loading: every well-formed, non-header line contributes its entry, in
/// order; malformed lines are skipped silently.
pub open spec fn spec_load(lines: Seq<Seq<char>>) -> Map<Seq<char>, u64>
    decreases lines.len(),
{
    if lines.len() == 0 {
        Map::empty()
    } else {
        let m = spec_load(lines.drop_last());
        let l = lines.last();
        if spec_is_header(l) {
            m
        } else {
            match spec_parse_line(l) {
                Option::Some(p) => m.insert(p.0, p.1),
                Option::None => m,
            }
        }
    }
}

impl Vocabulary {
    /// Distinct entry texts, every one within the recorded maximum, and the
    /// maximum witnessed by some entry.
    pub open spec fn wf(self) -> bool {
        &&& forall|a: int, b: int|
            0 <= a < b < self.entries@.len() ==> (#[trigger] self.entries@[a].0)@ != (
            #[trigger] self.entries@[b].0)@
        &&& forall|i: int|
            0 <= i < self.entries@.len() ==> (#[trigger] self.entries@[i].0)@.len()
                <= self.max_token_chars
        &&& self.entries@.len() == 0 ==> self.max_token_chars == 0
        &&& self.entries@.len() > 0 ==> exists|i: int|
            0 <= i < self.entries@.len() && (#[trigger] self.entries@[i].0)@.len()
                == self.max_token_chars
    }

    /// An empty vocabulary: every position falls back to single characters.
    pub fn new() -> (v: Vocabulary)
        ensures
            v.wf(),
            v@ == Map::<Seq<char>, u64>::empty(),
            v.max_token_chars == 0,
    {
        Vocabulary { entries: Vec::new(), max_token_chars: 0 }
    }

    /// The character count of the longest token.
    pub fn max_token_chars(&self) -> (n: usize)
        ensures
            n == self.max_token_chars,
    {
        self.max_token_chars
    }

    /// How many entries are loaded.
    pub fn len(&self) -> (n: usize)
        ensures
            n == self.entries@.len(),
    {
        self.entries.len()
    }

    /// Insert one scored token: a repeated text takes the new score, a new
    /// text becomes a new entry, and the longest-token count keeps up.
    pub fn insert(&mut self, token: String, score: u64)
        requires
            old(self).wf(),
        ensures
            final(self).wf(),
            final(self)@ == old(self)@.insert(token@, score),
    {
        let token_chars = str_to_chars(token.as_str());
        let token_len = token_chars.len();
        let mut i: usize = 0;
        while i < self.entries.len()
            invariant
                self.entries@ == old(self).entries@,
                self.max_token_chars == old(self).max_token_chars,
                old(self).wf(),
                i <= self.entries@.len(),
                token_len == token@.len(),
                forall|q: int| 0 <= q < i ==> (#[trigger] self.entries@[q].0)@ != token@,
            decreases self.entries@.len() - i,
        {
            if self.entries[i].0 == token {
                let ghost prev = self.entries@;
                self.entries[i].1 = score;
                proof {
                    assert(self.entries@ =~= prev.update(i as int, (prev[i as int].0, score)));
                    lemma_vocab_map_overwrite(prev, i as int, score);
                    assert forall|q: int|
                        0 <= q < self.entries@.len() implies (#[trigger] self.entries@[q].0)
                        == prev[q].0 by {
                        if q != i {
                            assert(self.entries@[q] == prev[q]);
                        }
                    }
                    let w = choose|w: int|
                        0 <= w < prev.len() && (#[trigger] prev[w].0)@.len()
                            == old(self).max_token_chars;
                    assert((self.entries@[w].0)@.len() == self.max_token_chars);
                    assert(self.wf());
                }
                return ;
            }
            i = i + 1;
        }
        let ghost prev = self.entries@;
        self.entries.push((token, score));
        if token_len > self.max_token_chars {
            self.max_token_chars = token_len;
        }
        proof {
            assert(self.entries@.drop_last() =~= prev);
            assert(vocab_map(self.entries@) == vocab_map(prev).insert(token@, score));
            assert((self.entries@[self.entries@.len() - 1].0)@.len() == token@.len());
            assert(self.wf());
        }
    }

    /// The score of a token, if the text is present.
    fn lookup(&self, token: &String) -> (r: Option<u64>)
        requires
            self.wf(),
        ensures
            r == (if self@.dom().contains(token@) {
                Some(self@[token@])
            } else {
                None::<u64>
            }),
    {
        let mut i: usize = 0;
        while i < self.entries.len()
            invariant
                self.wf(),
                i <= self.entries@.len(),
                forall|q: int| 0 <= q < i ==> (#[trigger] self.entries@[q].0)@ != token@,
            decreases self.entries@.len() - i,
        {
            if self.entries[i].0 == *token {
                proof {
                    lemma_vocab_map_index(self.entries@, i as int);
                }
                return Some(self.entries[i].1);
            }
            i = i + 1;
        }
        proof {
            lemma_vocab_map_dom(self.entries@, token@);
        }
        None
    }

    /// Build a vocabulary from the lines of a persisted file: the header and
    /// any malformed line are skipped, every other line contributes its
    /// unescaped token and score, later lines overriding earlier ones.
    pub fn load(lines: &Vec<String>) -> (v: Vocabulary)
        ensures
            v.wf(),
            v@ == spec_load(lines@.map_values(|l: String| l@)),
    {
        let mut v = Vocabulary { entries: Vec::new(), max_token_chars: 0 };
        let ghost lviews = lines@.map_values(|l: String| l@);
        let mut i: usize = 0;
        proof {
            assert(lviews.take(0) =~= Seq::<Seq<char>>::empty());
        }
        while i < lines.len()
            invariant
                v.wf(),
                i <= lines@.len(),
                lviews == lines@.map_values(|l: String| l@),
                v@ == spec_load(lviews.take(i as int)),
            decreases lines@.len() - i,
        {
            let line = &lines[i];
            proof {
                assert(lviews.take(i + 1).drop_last() =~= lviews.take(i as int));
                assert(lviews.take(i + 1).last() == line@);
            }
            let header = is_header_line(line);
            if !header {
                match parse_vocab_line(line.as_str()) {
                    Option::Some(p) => {
                        v.insert(p.0, p.1);
                    },
                    Option::None => {},
                }
            }
            i = i + 1;
        }
        proof {
            assert(lviews.take(lines@.len() as int) =~= lviews);
        }
        v
    }

    /// Deterministic, score-greedy segmentation of `text`. The result is
    /// exactly `spec_greedy_tokens` over the vocabulary mapping, and its
    /// concatenation reproduces `text`.
    pub fn tokenize(&self, text: &str) -> (r: Vec<String>)
        requires
            self.wf(),
        ensures
            token_views(r@) == spec_greedy_tokens(
                self@,
                self.max_token_chars as int,
                text@,
                0,
            ),
            concat_tokens(token_views(r@)) == text@,
    {
        let ghost m = self@;
        let ghost maxg = self.max_token_chars as int;
        let chars = str_to_chars(text);
        let n = chars.len();
        let mut tokens: Vec<String> = Vec::new();
        let mut cursor: usize = 0;
        proof {
            assert(token_views(tokens@) =~= Seq::<Seq<char>>::empty());
            assert(Seq::<Seq<char>>::empty() + spec_greedy_tokens(m, maxg, chars@, 0)
                =~= spec_greedy_tokens(m, maxg, chars@, 0));
        }
        while cursor < n
            invariant
                self.wf(),
                m == self@,
                maxg == self.max_token_chars as int,
                n == chars@.len(),
                chars@ == text@,
                cursor <= n,
                spec_greedy_tokens(m, maxg, chars@, 0) == token_views(tokens@)
                    + spec_greedy_tokens(m, maxg, chars@, cursor as int),
            decreases n - cursor,
        {
            let remaining = n - cursor;
            let depth = if self.max_token_chars < remaining {
                self.max_token_chars
            } else {
                remaining
            };
            // Best candidate among lengths 1..=depth.
            let mut best_len: usize = 0;
            let mut best_score: u64 = 0;
            let mut have_best: bool = false;
            let mut cand: Vec<char> = Vec::new();
            let mut j: usize = 0;
            proof {
                assert(cand@ =~= chars@.subrange(cursor as int, cursor as int));
            }
            while j < depth
                invariant
                    self.wf(),
                    m == self@,
                    n == chars@.len(),
                    cursor < n,
                    cursor + depth <= n,
                    j <= depth,
                    cand@ == chars@.subrange(cursor as int, cursor + j),
                    have_best ==> spec_best_candidate(m, chars@, cursor as int, j as int) == Some(
                        (best_len as int, best_score),
                    ),
                    !have_best ==> spec_best_candidate(m, chars@, cursor as int, j as int)
                        is None,
                    have_best ==> 1 <= best_len <= depth,
                decreases depth - j,
            {
                cand.push(chars[cursor + j]);
                proof {
                    assert(cand@ =~= chars@.subrange(cursor as int, cursor + j + 1));
                }
                let key = chars_to_string(&cand);
                match self.lookup(&key) {
                    Option::Some(sc) => {
                        if !have_best || sc >= best_score {
                            best_len = j + 1;
                            best_score = sc;
                            have_best = true;
                        }
                    },
                    Option::None => {},
                }
                j = j + 1;
            }
            let step: usize = if have_best {
                best_len
            } else {
                1
            };
            proof {
                if maxg < remaining as int {
                    assert(depth as int == maxg);
                } else {
                    assert(depth as int == remaining as int);
                }
            }
            let piece = char_slice(&chars, cursor, cursor + step);
            let tok = chars_to_string(&piece);
            let ghost prev_tokens = tokens@;
            tokens.push(tok);
            proof {
                assert(token_views(tokens@) =~= token_views(prev_tokens).push(
                    chars@.subrange(cursor as int, cursor + step),
                ));
                assert(spec_greedy_tokens(m, maxg, chars@, cursor as int) == seq![
                    chars@.subrange(cursor as int, cursor + step),
                ] + spec_greedy_tokens(m, maxg, chars@, cursor + step));
                assert(token_views(prev_tokens) + spec_greedy_tokens(m, maxg, chars@, cursor as int)
                    =~= token_views(tokens@) + spec_greedy_tokens(m, maxg, chars@, cursor + step));
            }
            cursor = cursor + step;
        }
        proof {
            assert(spec_greedy_tokens(m, maxg, chars@, n as int) =~= Seq::<Seq<char>>::empty());
            assert(token_views(tokens@) + Seq::<Seq<char>>::empty() =~= token_views(tokens@));
            lemma_greedy_reconstruct(m, maxg, chars@, 0);
            assert(chars@.skip(0) =~= chars@);
        }
        tokens
    }
}

/// Updating the score of the entry at `i` is an insertion of its text.
proof fn lemma_vocab_map_overwrite(v: Seq<(String, u64)>, i: int, score: u64)
    requires
        forall|a: int, b: int| 0 <= a < b < v.len() ==> (#[trigger] v[a].0)@ != (#[trigger] v[b].0)@,
        0 <= i < v.len(),
    ensures
        vocab_map(v.update(i, (v[i].0, score))) == vocab_map(v).insert((v[i].0)@, score),
    decreases v.len(),
{
    let u = v.update(i, (v[i].0, score));
    if i == v.len() - 1 {
        assert(u.drop_last() =~= v.drop_last());
        assert(u.last() == (v[i].0, score));
        assert(vocab_map(u) == vocab_map(v.drop_last()).insert((v[i].0)@, score));
        assert(vocab_map(v) == vocab_map(v.drop_last()).insert((v[i].0)@, v[i].1));
        assert(vocab_map(v).insert((v[i].0)@, score) =~= vocab_map(v.drop_last()).insert(
            (v[i].0)@,
            score,
        ));
    } else {
        assert(u.drop_last() =~= v.drop_last().update(i, (v[i].0, score)));
        assert(v.drop_last()[i] == v[i]);
        lemma_vocab_map_overwrite(v.drop_last(), i, score);
        assert(u.last() == v.last());
        assert((v[i].0)@ != (v.last().0)@);
        assert(vocab_map(u) == vocab_map(v.drop_last()).insert((v[i].0)@, score).insert(
            (v.last().0)@,
            v.last().1,
        ));
        assert(vocab_map(v.drop_last()).insert((v[i].0)@, score).insert((v.last().0)@, v.last().1)
            =~= vocab_map(v.drop_last()).insert((v.last().0)@, v.last().1).insert(
            (v[i].0)@,
            score,
        ));
    }
}

/// Whether a line is the fixed file header `Token<tab>Score`-style line.
fn is_header_line(line: &String) -> (b: bool)
    ensures
        b == spec_is_header(line@),
{
    let cs = str_to_chars(line.as_str());
    if cs.len() < 6 {
        return false;
    }
    let b = cs[0] == 'T' && cs[1] == 'o' && cs[2] == 'k' && cs[3] == 'e' && cs[4] == 'n' && cs[5]
        == '\t';
    proof {
        if b {
            assert(line@.subrange(0, 6) =~= seq!['T', 'o', 'k', 'e', 'n', '\t']);
        } else {
            if line@.subrange(0, 6) == seq!['T', 'o', 'k', 'e', 'n', '\t'] {
                assert(line@[0] == 'T' && line@[1] == 'o' && line@[2] == 'k' && line@[3] == 'e'
                    && line@[4] == 'n' && line@[5] == '\t') by {
                    assert(line@.subrange(0, 6)[0] == line@[0]);
                    assert(line@.subrange(0, 6)[1] == line@[1]);
                    assert(line@.subrange(0, 6)[2] == line@[2]);
                    assert(line@.subrange(0, 6)[3] == line@[3]);
                    assert(line@.subrange(0, 6)[4] == line@[4]);
                    assert(line@.subrange(0, 6)[5] == line@[5]);
                }
            }
        }
    }
    b
}

} // verus!
