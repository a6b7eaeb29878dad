//! Vocabulary lookups, and the selection of words that have an embedding.
use vstd::prelude::*;

use finalfusion::vocab::{Vocab, VocabWrap};

use crate::text::views;

verus! {

/// finalfusion's vocabularies, of words alone or with subwords, opaque here.
#[verifier::external_type_specification]
#[verifier::external_body]
pub struct ExVocabWrap(VocabWrap);

/// The words that a vocabulary gives an index, as a word of its own or through
/// its subwords.
pub uninterp spec fn indexed_words(v: VocabWrap) -> Set<Seq<char>>;

/// Relies on finalfusion's `Vocab::idx`: `Some` for exactly the words that the
/// vocabulary can give an embedding.
#[verifier::external_body]
pub(crate) fn ff_has_index(vocab: &VocabWrap, word: &str) -> (r: bool)
    ensures
        r == indexed_words(*vocab).contains(word@),
{
    vocab.idx(word).is_some()
}

/// A word that has no embedding.
#[derive(Clone, Debug, PartialEq, Eq)]
pub struct UnknownWord {
    pub word: String,
}

/// The words among the first `n` of `ws` whose flag in `known` is set, each
/// once, in the order of their first occurrence.
pub open spec fn kept(ws: Seq<Seq<char>>, known: Seq<bool>, n: int) -> Seq<Seq<char>>
    decreases n,
{
    if n <= 0 {
        Seq::empty()
    } else {
        let prev = kept(ws, known, n - 1);
        if known[n - 1] && !prev.contains(ws[n - 1]) {
            prev.push(ws[n - 1])
        } else {
            prev
        }
    }
}

/// For each word, whether the vocabulary gives it an index.
pub open spec fn known_flags(vocab: VocabWrap, words: Seq<String>) -> Seq<bool> {
    Seq::new(words.len(), |i: int| indexed_words(vocab).contains(words[i]@))
}

/// Whether a sequence holds no element twice.
pub open spec fn distinct(s: Seq<Seq<char>>) -> bool {
    forall|i: int, j: int| 0 <= i < j < s.len() ==> s[i] != s[j]
}

proof fn lemma_kept_distinct(ws: Seq<Seq<char>>, known: Seq<bool>, n: int)
    ensures
        distinct(kept(ws, known, n)),
    decreases n,
{
    if n > 0 {
        lemma_kept_distinct(ws, known, n - 1);
    }
}

fn holds_word(sel: &Vec<String>, w: &String) -> (r: bool)
    ensures
        r == views(sel@).contains(w@),
{
    let mut i: usize = 0;
    while i < sel.len()
        invariant
            i <= sel@.len(),
            forall|m: int| 0 <= m < i ==> #[trigger] sel@[m]@ != w@,
        decreases sel@.len() - i,
    {
        if sel[i] == *w {
            assert(views(sel@)[i as int] == w@);
            return true;
        }
        i = i + 1;
    }
    proof {
        if views(sel@).contains(w@) {
            let m = choose|m: int| 0 <= m < views(sel@).len() && views(sel@)[m] == w@;
            assert(sel@[m]@ == w@);
        }
    }
    false
}

/// Selects the words whose flag in `known` is set, each once, in the order of
/// their first occurrence. Unless unknown words are to be ignored, the first
/// unknown word is an error.
pub fn select_known(words: &Vec<String>, known: &Vec<bool>, ignore_unknown: bool) -> (r: Result<Vec<String>, UnknownWord>)
    requires
        words@.len() == known@.len(),
    ensures
        match r {
            Ok(sel) => {
                &&& views(sel@) == kept(views(words@), known@, words@.len() as int)
                &&& !ignore_unknown ==> forall|i: int| 0 <= i < known@.len() ==> #[trigger] known@[i]
            },
            Err(e) => exists|i: int|
                0 <= i < words@.len() && !known@[i] && #[trigger] words@[i]@ == e.word@
                    && !ignore_unknown && forall|j: int| 0 <= j < i ==> #[trigger] known@[j],
        },
{
    let ghost ws = views(words@);
    let mut sel: Vec<String> = Vec::new();
    let mut i: usize = 0;
    while i < words.len()
        invariant
            words@.len() == known@.len(),
            ws == views(words@),
            i <= words@.len(),
            views(sel@) == kept(ws, known@, i as int),
            !ignore_unknown ==> forall|j: int| 0 <= j < i ==> #[trigger] known@[j],
        decreases words@.len() - i,
    {
        assert(ws[i as int] == words@[i as int]@);
        if known[i] {
            if !holds_word(&sel, &words[i]) {
                sel.push(words[i].clone());
                assert(views(sel@) =~= kept(ws, known@, i as int).push(ws[i as int]));
            }
        } else if !ignore_unknown {
            return Err(UnknownWord { word: words[i].clone() });
        }
        i = i + 1;
    }
    Ok(sel)
}

/// Selects the words that the vocabulary can give an embedding, each once, in
/// the order of their first occurrence. Unless unknown words are to be ignored,
/// the first unknown word is an error.
pub fn select_words(vocab: &VocabWrap, words: &Vec<String>, ignore_unknown: bool) -> (r: Result<Vec<String>, UnknownWord>)
    ensures
        match r {
            Ok(sel) => {
                &&& views(sel@) == kept(views(words@), known_flags(*vocab, words@), words@.len() as int)
                &&& distinct(views(sel@))
                &&& forall|m: int| 0 <= m < sel@.len() ==> #[trigger] views(words@).contains(sel@[m]@)
                &&& !ignore_unknown ==> forall|i: int|
                    0 <= i < words@.len() ==> #[trigger] views(sel@).contains(words@[i]@)
            },
            Err(e) => exists|i: int|
                0 <= i < words@.len() && !indexed_words(*vocab).contains(words@[i]@)
                    && #[trigger] words@[i]@ == e.word@ && !ignore_unknown && forall|j: int|
                    0 <= j < i ==> indexed_words(*vocab).contains(#[trigger] words@[j]@),
        },
{
    let mut known: Vec<bool> = Vec::new();
    let mut i: usize = 0;
    while i < words.len()
        invariant
            i <= words@.len(),
            known@.len() == i,
            forall|j: int| 0 <= j < i ==> known@[j] == known_flags(*vocab, words@)[j],
        decreases words@.len() - i,
    {
        known.push(ff_has_index(vocab, words[i].as_str()));
        i = i + 1;
    }
    let r = select_known(words, &known, ignore_unknown);
    proof {
        assert(known@ =~= known_flags(*vocab, words@));
        let ws = views(words@);
        lemma_kept_distinct(ws, known@, ws.len() as int);
        lemma_kept_within(ws, known@, ws.len() as int);
        match &r {
            Ok(sel) => {
                assert forall|m: int| 0 <= m < sel@.len() implies #[trigger] ws.contains(sel@[m]@) by {
                    assert(views(sel@)[m] == sel@[m]@);
                }
                if !ignore_unknown {
                    assert forall|i: int| 0 <= i < words@.len() implies #[trigger] views(sel@).contains(
                        words@[i]@,
                    ) by {
                        assert(known@[i]);
                        lemma_kept_contains(ws, known@, ws.len() as int, i);
                        assert(ws[i] == words@[i]@);
                    }
                }
            },
            Err(e) => {
                let i = choose|i: int|
                    0 <= i < words@.len() && !known@[i] && #[trigger] words@[i]@ == e.word@
                        && !ignore_unknown && forall|j: int| 0 <= j < i ==> #[trigger] known@[j];
                assert forall|j: int| 0 <= j < i implies indexed_words(*vocab).contains(#[trigger] words@[j]@) by {
                    assert(known@[j]);
                }
            },
        }
    }
    r
}

proof fn lemma_kept_contains(ws: Seq<Seq<char>>, known: Seq<bool>, n: int, i: int)
    requires
        0 <= i < n,
        known[i],
    ensures
        kept(ws, known, n).contains(ws[i]),
    decreases n,
{
    let prev = kept(ws, known, n - 1);
    if i < n - 1 {
        lemma_kept_contains(ws, known, n - 1, i);
        let m = choose|m: int| 0 <= m < prev.len() && prev[m] == ws[i];
        if known[n - 1] && !prev.contains(ws[n - 1]) {
            assert(kept(ws, known, n)[m] == ws[i]);
        }
    } else if !prev.contains(ws[n - 1]) {
        assert(kept(ws, known, n)[prev.len() as int] == ws[i]);
    }
}

proof fn lemma_kept_within(ws: Seq<Seq<char>>, known: Seq<bool>, n: int)
    requires
        n <= ws.len(),
    ensures
        forall|m: int| 0 <= m < kept(ws, known, n).len() ==> ws.contains(#[trigger] kept(ws, known, n)[m]),
    decreases n,
{
    if n > 0 {
        lemma_kept_within(ws, known, n - 1);
        let prev = kept(ws, known, n - 1);
        assert forall|m: int| 0 <= m < kept(ws, known, n).len() implies ws.contains(#[trigger] kept(ws, known, n)[m]) by {
            if m < prev.len() {
                assert(kept(ws, known, n)[m] == prev[m]);
            } else {
                assert(ws[n - 1] == kept(ws, known, n)[m]);
            }
        }
    }
}

} // verus!
