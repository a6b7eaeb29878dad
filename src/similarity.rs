//! Similarity and analogy queries against an embedding collection.
use vstd::prelude::*;

use finalfusion::embeddings::Embeddings;
use finalfusion::similarity::{Analogy, WordSimilarity};
use finalfusion::storage::{Storage, StorageViewWrap};
use finalfusion::vocab::{Vocab, VocabWrap};

use crate::options::SimilarityMeasure;
use crate::text::{lemma_lex_irreflexive, lemma_lex_total, lemma_lex_transitive, lex_lt};

verus! {

/// finalfusion's embedding collection, opaque here: a vocabulary with a matrix
/// of embeddings and their norms.
#[verifier::external_type_specification]
#[verifier::external_body]
#[verifier::reject_recursive_types(V)]
#[verifier::reject_recursive_types(S)]
pub struct ExEmbeddings<V, S>(Embeddings<V, S>);

/// finalfusion's embedding matrices that can be viewed as a whole, opaque here.
#[verifier::external_type_specification]
#[verifier::external_body]
pub struct ExStorageViewWrap(StorageViewWrap);

/// A word with its similarity to a query, each similarity as the bits of an
/// IEEE 754 single-precision number.
pub struct Scored {
    pub word: String,
    pub cosine_bits: u32,
    pub angular_bits: u32,
}

/// The rows of the embedding matrix of a collection, each number as its bits,
/// the rows of words first, then those of subwords.
pub uninterp spec fn stored_rows(e: Embeddings<VocabWrap, StorageViewWrap>) -> Seq<Seq<u32>>;

/// The words of the vocabulary of a collection, in the order of their rows.
pub uninterp spec fn collection_words(e: Embeddings<VocabWrap, StorageViewWrap>) -> Seq<Seq<char>>;

/// The words for which a collection can compute an embedding, through the word
/// itself or through its subwords.
pub uninterp spec fn embeddable_words(e: Embeddings<VocabWrap, StorageViewWrap>) -> Set<Seq<char>>;

/// The cosine similarity, as bits, that a collection gives a vocabulary word
/// (second) for a query word (first): the dot product of the word's row with the
/// query word's embedding.
pub uninterp spec fn word_scores(e: Embeddings<VocabWrap, StorageViewWrap>) -> Map<(Seq<char>, Seq<char>), u32>;

/// The cosine similarity, as bits, that a collection gives a vocabulary word for
/// an analogy query of three tokens: the dot product of the word's row with the
/// normalized combination of the tokens' embeddings.
pub uninterp spec fn analogy_scores(e: Embeddings<VocabWrap, StorageViewWrap>) -> Map<(Seq<Seq<char>>, Seq<char>), u32>;

/// Whether a word with score `s1` comes before one with score `s2` in a ranking:
/// a higher score first, words of equal score in lexicographic order.
pub open spec fn ranks_before(s1: u32, w1: Seq<char>, s2: u32, w2: Seq<char>) -> bool {
    float_order(s1) > float_order(s2) || (float_order(s1) == float_order(s2) && lex_lt(w1, w2))
}

/// Whether the results are the best of the candidates `cands` under the scores
/// `scores`, keyed by `key` and the word: each result carries its score, no
/// candidate score is NaN, and every candidate left out comes after the last result.
pub open spec fn best_of<K>(rs: Seq<Scored>, cands: Seq<Seq<char>>, scores: Map<(K, Seq<char>), u32>, key: K) -> bool {
    &&& forall|i: int| 0 <= i < rs.len() ==> #[trigger] rs[i].cosine_bits == scores[(key, rs[i].word@)]
    &&& forall|v: Seq<char>| #[trigger] cands.contains(v) ==> !nan_bits(scores[(key, v)])
    &&& forall|v: Seq<char>|
        #[trigger] cands.contains(v) && rs.len() > 0 && !(exists|i: int| 0 <= i < rs.len() && rs[i].word@ == v)
            ==> ranks_before(rs.last().cosine_bits, rs.last().word@, scores[(key, v)], v)
}

/// Whether the bits of a single-precision number are those of a NaN.
pub open spec fn nan_bits(bits: u32) -> bool {
    bits % 0x8000_0000 > 0x7f80_0000
}

/// The largest magnitude of a stored number, 2^16, as the bits of a single-precision number.
pub const MAX_STORED_BITS: u32 = 0x4780_0000;

/// Whether the bits of a single-precision number are those of a number whose
/// magnitude is at most 2^16. This excludes NaN and the infinities.
pub open spec fn bounded_bits(bits: u32) -> bool {
    bits % 0x8000_0000 <= MAX_STORED_BITS
}

/// Whether every number of a matrix has a magnitude of at most 2^16.
pub open spec fn rows_bounded(rows: Seq<Seq<u32>>) -> bool {
    forall|i: int, j: int| 0 <= i < rows.len() && 0 <= j < rows[i].len() ==> bounded_bits(#[trigger] rows[i][j])
}

/// The position of a single-precision number in the order of numbers: the
/// magnitude, negated for a set sign bit. Numbers that are not NaN compare as
/// their positions do, and both zeros have position zero.
pub open spec fn float_order(bits: u32) -> int {
    if bits >= 0x8000_0000 {
        -((bits - 0x8000_0000) as int)
    } else {
        bits as int
    }
}

/// Whether the results are ordered by non-increasing cosine similarity, none of
/// them NaN, and results of equal similarity by their words.
pub open spec fn ranked(rs: Seq<Scored>) -> bool {
    &&& forall|i: int| 0 <= i < rs.len() ==> !nan_bits(#[trigger] rs[i].cosine_bits)
    &&& forall|i: int, j: int|
        0 <= i < j < rs.len() ==> float_order(rs[i].cosine_bits) >= float_order(rs[j].cosine_bits)
    &&& forall|i: int, j: int|
        0 <= i < j < rs.len() && float_order(rs[i].cosine_bits) == float_order(rs[j].cosine_bits)
            ==> !lex_lt(rs[j].word@, rs[i].word@)
}

/// Whether no result is the word `w`.
pub open spec fn avoids(rs: Seq<Scored>, w: Seq<char>) -> bool {
    forall|i: int| 0 <= i < rs.len() ==> #[trigger] rs[i].word@ != w
}

/// Whether every result is one of the words `ws`, and no word comes twice.
pub open spec fn drawn_from(rs: Seq<Scored>, ws: Seq<Seq<char>>) -> bool {
    &&& forall|i: int| 0 <= i < rs.len() ==> ws.contains(#[trigger] rs[i].word@)
    &&& forall|i: int, j: int| 0 <= i < j < rs.len() ==> rs[i].word@ != rs[j].word@
}

/// The words of `ws` other than `w`.
pub open spec fn others(ws: Seq<Seq<char>>, w: Seq<char>) -> Seq<Seq<char>> {
    ws.filter(|x: Seq<char>| x != w)
}

/// The words of `ws` that an analogy query may answer: none of the query tokens
/// whose flag in `remove` is set.
pub open spec fn eligible(ws: Seq<Seq<char>>, q: Seq<Seq<char>>, remove: Seq<bool>) -> Seq<Seq<char>> {
    ws.filter(
        |x: Seq<char>| !((remove[0] && x == q[0]) || (remove[1] && x == q[1]) || (remove[2] && x == q[2])),
    )
}

/// The smaller of `k` and `n`.
pub open spec fn at_most(k: usize, n: nat) -> nat {
    if (k as nat) < n {
        k as nat
    } else {
        n
    }
}

/// Relies on finalfusion's `Storage::shape`: the number of rows of the matrix.
#[verifier::external_body]
fn ff_row_count(e: &Embeddings<VocabWrap, StorageViewWrap>) -> (r: usize)
    ensures
        r == stored_rows(*e).len(),
{
    e.storage().shape().0
}

/// Relies on finalfusion's `Storage::embedding`: row `i` of the matrix.
#[verifier::external_body]
fn ff_row_bits(e: &Embeddings<VocabWrap, StorageViewWrap>, i: usize) -> (r: Vec<u32>)
    requires
        i < stored_rows(*e).len(),
    ensures
        r@ == stored_rows(*e)[i as int],
{
    e.storage().embedding(i).iter().map(|x| x.to_bits()).collect()
}

/// Relies on finalfusion's `Vocab::words_len`: the number of words, which is
/// that of `Vocab::words` since vocabularies refuse duplicate words.
#[verifier::external_body]
fn ff_words_len(e: &Embeddings<VocabWrap, StorageViewWrap>) -> (r: usize)
    ensures
        r == collection_words(*e).len(),
{
    e.vocab().words_len()
}

/// Relies on finalfusion's `Vocab::idx` and `WordIndex::word`: every vocabulary
/// looks a word up among its own words first and answers `WordIndex::Word` for
/// exactly those (`SimpleVocab::idx`, `SubwordVocab::idx`).
#[verifier::external_body]
pub(crate) fn ff_is_vocab_word(e: &Embeddings<VocabWrap, StorageViewWrap>, word: &str) -> (r: bool)
    ensures
        r == collection_words(*e).contains(word@),
{
    e.vocab().idx(word).and_then(|idx| idx.word()).is_some()
}

/// Relies on finalfusion's `WordSimilarity::word_similarity`. It is `None` for
/// exactly the words without an embedding (`Embeddings::embedding`). Otherwise it
/// scores every vocabulary word other than the query word and keeps the best
/// `k`, as `WordSimilarityResult`'s `Ord` sorts them: by non-increasing
/// similarity, then by word. Vocabularies refuse duplicate words.
/// A vocabulary word has an embedding: `Vocab::idx` answers `WordIndex::Word`.
/// finalfusion panics on a NaN similarity and on a heap of `k` results that
/// cannot be allocated. With every stored number finite and at most 2^16 in
/// magnitude, the query embedding is finite (a row, or a sum of rows that
/// `l2_normalize` scales, to zeros where its norm overflows), so every dot
/// product is finite and no similarity is NaN; `k` is at most the number of words.
#[verifier::external_body]
fn ff_word_similarity(e: &Embeddings<VocabWrap, StorageViewWrap>, word: &str, k: usize) -> (r: Option<Vec<Scored>>)
    requires
        rows_bounded(stored_rows(*e)),
        k <= collection_words(*e).len(),
        k >= 1 || collection_words(*e).len() == 0,
    ensures
        (r is None) == !embeddable_words(*e).contains(word@),
        collection_words(*e).contains(word@) ==> r is Some,
        r matches Some(rs) ==> {
            &&& rs@.len() == at_most(k, others(collection_words(*e), word@).len())
            &&& drawn_from(rs@, collection_words(*e))
            &&& avoids(rs@, word@)
            &&& ranked(rs@)
            &&& best_of(rs@, others(collection_words(*e), word@), word_scores(*e), word@)
        },
{
    e.word_similarity(word, k).map(|rs| {
        rs.iter().map(|r| Scored {
            word: r.word().to_owned(),
            cosine_bits: r.cosine_similarity().to_bits(),
            angular_bits: r.angular_similarity().to_bits(),
        }).collect()
    })
}

/// Relies on finalfusion's `Analogy::analogy_masked`. It fails for exactly the
/// queries with a token without an embedding, telling which tokens have one.
/// Otherwise it keeps the best `k` of the vocabulary words that are not a
/// removed query token, in the order of `word_similarity`. Vocabulary words have
/// an embedding. It panics as `word_similarity` does, on the same inputs; the
/// combination of three finite embeddings is finite or is normalized to zeros.
#[verifier::external_body]
fn ff_analogy_masked(
    e: &Embeddings<VocabWrap, StorageViewWrap>,
    query: [&str; 3],
    remove: [bool; 3],
    k: usize,
) -> (r: Result<Vec<Scored>, [bool; 3]>)
    requires
        rows_bounded(stored_rows(*e)),
        k <= collection_words(*e).len(),
        k >= 1 || collection_words(*e).len() == 0,
    ensures
        (r is Err) == !(embeddable_words(*e).contains(query@[0]@) && embeddable_words(*e).contains(
            query@[1]@,
        ) && embeddable_words(*e).contains(query@[2]@)),
        collection_words(*e).contains(query@[0]@) && collection_words(*e).contains(query@[1]@)
            && collection_words(*e).contains(query@[2]@) ==> r is Ok,
        r matches Err(present) ==> forall|m: int|
            0 <= m < 3 ==> present@[m] == embeddable_words(*e).contains(#[trigger] query@[m]@),
        r matches Ok(rs) ==> {
            let q = seq![query@[0]@, query@[1]@, query@[2]@];
            &&& rs@.len() == at_most(k, eligible(collection_words(*e), q, remove@).len())
            &&& drawn_from(rs@, eligible(collection_words(*e), q, remove@))
            &&& ranked(rs@)
            &&& best_of(rs@, eligible(collection_words(*e), q, remove@), analogy_scores(*e), q)
        },
{
    e.analogy_masked(query, remove, k).map(|rs| {
        rs.iter().map(|r| Scored {
            word: r.word().to_owned(),
            cosine_bits: r.cosine_similarity().to_bits(),
            angular_bits: r.angular_similarity().to_bits(),
        }).collect()
    })
}

/// The place of a stored number that is NaN, an infinity or of a magnitude above 2^16.
#[derive(Clone, Copy, Debug, PartialEq, Eq, Structural)]
pub struct OutOfRange {
    pub row: usize,
    pub column: usize,
}

/// An embedding collection whose stored numbers are finite and of a magnitude
/// of at most 2^16; queries on it cannot meet a NaN similarity.
pub struct Collection {
    embeddings: Embeddings<VocabWrap, StorageViewWrap>,
}

impl Collection {
    #[verifier::type_invariant]
    spec fn bounded(&self) -> bool {
        rows_bounded(stored_rows(self.embeddings))
    }

    /// The embeddings of the collection.
    pub closed spec fn inner(&self) -> Embeddings<VocabWrap, StorageViewWrap> {
        self.embeddings
    }

    /// Accepts embeddings whose stored numbers are all finite and of a magnitude
    /// of at most 2^16, and otherwise names the first number that is not, in
    /// the first row that holds one.
    pub fn new(embeddings: Embeddings<VocabWrap, StorageViewWrap>) -> (r: Result<Collection, OutOfRange>)
        ensures
            match r {
                Ok(c) => c.inner() == embeddings,
                Err(e) => {
                    &&& e.row < stored_rows(embeddings).len()
                    &&& e.column < stored_rows(embeddings)[e.row as int].len()
                    &&& !bounded_bits(stored_rows(embeddings)[e.row as int][e.column as int])
                    &&& forall|b: int|
                        0 <= b < e.column ==> bounded_bits(#[trigger] stored_rows(embeddings)[e.row as int][b])
                    &&& forall|i: int, j: int|
                        0 <= i < e.row && 0 <= j < stored_rows(embeddings)[i].len() ==> bounded_bits(
                            #[trigger] stored_rows(embeddings)[i][j],
                        )
                },
            },
    {
        let n = ff_row_count(&embeddings);
        let mut i: usize = 0;
        while i < n
            invariant
                n == stored_rows(embeddings).len(),
                i <= n,
                forall|a: int, b: int|
                    0 <= a < i && 0 <= b < stored_rows(embeddings)[a].len() ==> bounded_bits(
                        #[trigger] stored_rows(embeddings)[a][b],
                    ),
            decreases n - i,
        {
            let row = ff_row_bits(&embeddings, i);
            let mut j: usize = 0;
            while j < row.len()
                invariant
                    n == stored_rows(embeddings).len(),
                    i < n,
                    forall|a: int, b: int|
                        0 <= a < i && 0 <= b < stored_rows(embeddings)[a].len() ==> bounded_bits(
                            #[trigger] stored_rows(embeddings)[a][b],
                        ),
                    row@ == stored_rows(embeddings)[i as int],
                    j <= row@.len(),
                    forall|b: int| 0 <= b < j ==> bounded_bits(#[trigger] row@[b]),
                decreases row@.len() - j,
            {
                if row[j] % 0x8000_0000 > MAX_STORED_BITS {
                    return Err(OutOfRange { row: i, column: j });
                }
                j = j + 1;
            }
            assert forall|a: int, b: int|
                0 <= a < i + 1 && 0 <= b < stored_rows(embeddings)[a].len() implies bounded_bits(
                    #[trigger] stored_rows(embeddings)[a][b],
                ) by {
                if a == i {
                    assert(stored_rows(embeddings)[a][b] == row@[b]);
                }
            }
            i = i + 1;
        }
        Ok(Collection { embeddings })
    }

    /// The embeddings of the collection.
    pub fn embeddings(&self) -> (r: &Embeddings<VocabWrap, StorageViewWrap>)
        ensures
            *r == self.inner(),
    {
        &self.embeddings
    }
}

/// The `k` words most similar to `word`, most similar first, never `word` itself;
/// `None` when no embedding can be computed for `word`.
pub fn rank(c: &Collection, word: &str, k: usize) -> (r: Option<Vec<Scored>>)
    requires
        k >= 1,
    ensures
        (r is None) == !embeddable_words(c.inner()).contains(word@),
        collection_words(c.inner()).contains(word@) ==> r is Some,
        r matches Some(rs) ==> {
            &&& rs@.len() == at_most(k, others(collection_words(c.inner()), word@).len())
            &&& drawn_from(rs@, collection_words(c.inner()))
            &&& avoids(rs@, word@)
            &&& ranked(rs@)
            &&& best_of(rs@, others(collection_words(c.inner()), word@), word_scores(c.inner()), word@)
        },
{
    proof {
        use_type_invariant(c);
    }
    let n = ff_words_len(&c.embeddings);
    let limit = if k < n { k } else { n };
    let r = ff_word_similarity(&c.embeddings, word, limit);
    proof {
        collection_words(c.inner()).lemma_filter_len(|x: Seq<char>| x != word@);
    }
    r
}

/// The `k` words that best complete "`a` is to `b` as `c` is to ?", best first,
/// among the vocabulary words that are not a query token whose flag in `exclude`
/// is set. When a token has no embedding, the error tells which tokens have one.
pub fn solve(
    coll: &Collection,
    a: &str,
    b: &str,
    c: &str,
    exclude: [bool; 3],
    k: usize,
) -> (r: Result<Vec<Scored>, [bool; 3]>)
    requires
        k >= 1,
    ensures
        (r is Err) == !(embeddable_words(coll.inner()).contains(a@) && embeddable_words(
            coll.inner(),
        ).contains(b@) && embeddable_words(coll.inner()).contains(c@)),
        collection_words(coll.inner()).contains(a@) && collection_words(coll.inner()).contains(b@)
            && collection_words(coll.inner()).contains(c@) ==> r is Ok,
        r matches Err(present) ==> {
            &&& present@[0] == embeddable_words(coll.inner()).contains(a@)
            &&& present@[1] == embeddable_words(coll.inner()).contains(b@)
            &&& present@[2] == embeddable_words(coll.inner()).contains(c@)
        },
        r matches Ok(rs) ==> {
            &&& rs@.len() == at_most(
                k,
                eligible(collection_words(coll.inner()), seq![a@, b@, c@], exclude@).len(),
            )
            &&& drawn_from(rs@, eligible(collection_words(coll.inner()), seq![a@, b@, c@], exclude@))
            &&& ranked(rs@)
            &&& best_of(
                rs@,
                eligible(collection_words(coll.inner()), seq![a@, b@, c@], exclude@),
                analogy_scores(coll.inner()),
                seq![a@, b@, c@],
            )
        },
{
    proof {
        use_type_invariant(coll);
    }
    let n = ff_words_len(&coll.embeddings);
    let limit = if k < n { k } else { n };
    let r = ff_analogy_masked(&coll.embeddings, [a, b, c], exclude, limit);
    proof {
        let q = seq![a@, b@, c@];
        assert([a, b, c]@[0]@ == a@);
        assert([a, b, c]@[1]@ == b@);
        assert([a, b, c]@[2]@ == c@);
        assert(seq![[a, b, c]@[0]@, [a, b, c]@[1]@, [a, b, c]@[2]@] =~= q);
        let ws = collection_words(coll.inner());
        ws.lemma_filter_len(
            |x: Seq<char>|
                !((exclude@[0] && x == q[0]) || (exclude@[1] && x == q[1]) || (exclude@[2] && x
                    == q[2])),
        );
        if r is Err {
            assert(r->Err_0@[0] == embeddable_words(coll.inner()).contains([a, b, c]@[0]@));
            assert(r->Err_0@[1] == embeddable_words(coll.inner()).contains([a, b, c]@[1]@));
            assert(r->Err_0@[2] == embeddable_words(coll.inner()).contains([a, b, c]@[2]@));
        }
    }
    r
}

proof fn lemma_ranks_before_transitive(s1: u32, w1: Seq<char>, s2: u32, w2: Seq<char>, s3: u32, w3: Seq<char>)
    requires
        ranks_before(s1, w1, s2, w2),
        ranks_before(s2, w2, s3, w3),
    ensures
        ranks_before(s1, w1, s3, w3),
{
    if float_order(s1) == float_order(s2) && float_order(s2) == float_order(s3) {
        lemma_lex_transitive(w1, w2, w3);
    }
}

proof fn lemma_ranks_before_asymmetric(s1: u32, w1: Seq<char>, s2: u32, w2: Seq<char>)
    requires
        ranks_before(s1, w1, s2, w2),
    ensures
        !ranks_before(s2, w2, s1, w1),
{
    if float_order(s1) == float_order(s2) && lex_lt(w2, w1) {
        lemma_lex_transitive(w1, w2, w1);
        lemma_lex_irreflexive(w1);
    }
}

proof fn lemma_ranked_strictly(rs: Seq<Scored>, ws: Seq<Seq<char>>, i: int, j: int)
    requires
        ranked(rs),
        drawn_from(rs, ws),
        0 <= i < j < rs.len(),
    ensures
        ranks_before(rs[i].cosine_bits, rs[i].word@, rs[j].cosine_bits, rs[j].word@),
{
    if float_order(rs[i].cosine_bits) == float_order(rs[j].cosine_bits) {
        lemma_lex_total(rs[i].word@, rs[j].word@);
    }
}

/// A candidate that result `i` does not hold among its first `i + 1` results
/// ranks after result `i`.
proof fn lemma_result_beats<K>(
    rs: Seq<Scored>,
    cands: Seq<Seq<char>>,
    scores: Map<(K, Seq<char>), u32>,
    key: K,
    i: int,
    y: Seq<char>,
)
    requires
        ranked(rs),
        drawn_from(rs, cands),
        best_of(rs, cands, scores, key),
        0 <= i < rs.len(),
        cands.contains(y),
        forall|j: int| 0 <= j <= i ==> rs[j].word@ != y,
    ensures
        ranks_before(rs[i].cosine_bits, rs[i].word@, scores[(key, y)], y),
{
    if exists|j: int| 0 <= j < rs.len() && rs[j].word@ == y {
        let j = choose|j: int| 0 <= j < rs.len() && rs[j].word@ == y;
        lemma_ranked_strictly(rs, cands, i, j);
    } else {
        let l = rs.len() - 1;
        assert(rs.last() == rs[l]);
        if i < l {
            lemma_ranked_strictly(rs, cands, i, l);
            lemma_ranks_before_transitive(
                rs[i].cosine_bits,
                rs[i].word@,
                rs[l].cosine_bits,
                rs[l].word@,
                scores[(key, y)],
                y,
            );
        }
    }
}

/// Two rankings that both meet the contract of a query hold the same words with
/// the same scores in the same order: the result of a query is determined.
pub proof fn lemma_ranking_determined<K>(
    rs1: Seq<Scored>,
    rs2: Seq<Scored>,
    cands: Seq<Seq<char>>,
    scores: Map<(K, Seq<char>), u32>,
    key: K,
    k: usize,
)
    requires
        rs1.len() == at_most(k, cands.len()),
        rs2.len() == at_most(k, cands.len()),
        drawn_from(rs1, cands),
        drawn_from(rs2, cands),
        ranked(rs1),
        ranked(rs2),
        best_of(rs1, cands, scores, key),
        best_of(rs2, cands, scores, key),
    ensures
        forall|i: int|
            0 <= i < rs1.len() ==> #[trigger] rs1[i].word@ == rs2[i].word@ && rs1[i].cosine_bits
                == rs2[i].cosine_bits,
{
    lemma_ranking_prefix(rs1, rs2, cands, scores, key, rs1.len() as int);
}

proof fn lemma_ranking_prefix<K>(
    rs1: Seq<Scored>,
    rs2: Seq<Scored>,
    cands: Seq<Seq<char>>,
    scores: Map<(K, Seq<char>), u32>,
    key: K,
    n: int,
)
    requires
        rs1.len() == rs2.len(),
        0 <= n <= rs1.len(),
        drawn_from(rs1, cands),
        drawn_from(rs2, cands),
        ranked(rs1),
        ranked(rs2),
        best_of(rs1, cands, scores, key),
        best_of(rs2, cands, scores, key),
    ensures
        forall|i: int|
            0 <= i < n ==> #[trigger] rs1[i].word@ == rs2[i].word@ && rs1[i].cosine_bits
                == rs2[i].cosine_bits,
    decreases n,
{
    if n > 0 {
        lemma_ranking_prefix(rs1, rs2, cands, scores, key, n - 1);
        let i = n - 1;
        let x = rs1[i].word@;
        let y = rs2[i].word@;
        if x != y {
            assert forall|j: int| 0 <= j <= i implies rs1[j].word@ != y by {
                if j < i {
                    assert(rs1[j].word@ == rs2[j].word@);
                }
            }
            assert forall|j: int| 0 <= j <= i implies rs2[j].word@ != x by {
                if j < i {
                    assert(rs1[j].word@ == rs2[j].word@);
                }
            }
            lemma_result_beats(rs1, cands, scores, key, i, y);
            lemma_result_beats(rs2, cands, scores, key, i, x);
            lemma_ranks_before_asymmetric(rs1[i].cosine_bits, x, scores[(key, y)], y);
        }
    }
}

/// When the exclusions leave exactly one eligible word, an analogy answer of at
/// least one result is that word alone.
pub proof fn lemma_single_eligible_word(
    ws: Seq<Seq<char>>,
    q: Seq<Seq<char>>,
    remove: Seq<bool>,
    k: usize,
    rs: Seq<Scored>,
    w: Seq<char>,
)
    requires
        k >= 1,
        eligible(ws, q, remove) == seq![w],
        rs.len() == at_most(k, eligible(ws, q, remove).len()),
        drawn_from(rs, eligible(ws, q, remove)),
    ensures
        rs.len() == 1,
        rs[0].word@ == w,
{
    assert(eligible(ws, q, remove).contains(rs[0].word@));
}

/// In a vocabulary of king, man, woman and queen, the analogy query king, man,
/// woman with every query token excluded answers queen, and queen alone.
pub proof fn lemma_queen_completes_the_analogy(k: usize, rs: Seq<Scored>)
    requires
        k >= 1,
        rs.len() == at_most(
            k,
            eligible(
                seq!["king"@, "man"@, "woman"@, "queen"@],
                seq!["king"@, "man"@, "woman"@],
                seq![true, true, true],
            ).len(),
        ),
        drawn_from(
            rs,
            eligible(
                seq!["king"@, "man"@, "woman"@, "queen"@],
                seq!["king"@, "man"@, "woman"@],
                seq![true, true, true],
            ),
        ),
    ensures
        rs.len() == 1,
        rs[0].word@ == "queen"@,
{
    reveal_strlit("king");
    reveal_strlit("man");
    reveal_strlit("woman");
    reveal_strlit("queen");
    assert("king"@.len() == 4 && "man"@.len() == 3 && "woman"@.len() == 5 && "queen"@.len() == 5);
    assert("woman"@[0] == 'w' && "queen"@[0] == 'q');
    let ws = seq!["king"@, "man"@, "woman"@, "queen"@];
    let q = seq!["king"@, "man"@, "woman"@];
    let remove = seq![true, true, true];
    reveal_with_fuel(Seq::filter, 5);
    assert(ws.drop_last() =~= seq!["king"@, "man"@, "woman"@]);
    assert(ws.drop_last().drop_last() =~= seq!["king"@, "man"@]);
    assert(ws.drop_last().drop_last().drop_last() =~= seq!["king"@]);
    assert(ws.drop_last().drop_last().drop_last().drop_last() =~= Seq::<Seq<char>>::empty());
    assert(eligible(ws, q, remove) =~= seq!["queen"@]);
    lemma_single_eligible_word(ws, q, remove, k, rs, "queen"@);
}

impl SimilarityMeasure {
    /// The bits of the similarity of a result in this measure.
    pub fn score_bits(&self, r: &Scored) -> (bits: u32)
        ensures
            bits == match self {
                SimilarityMeasure::Angular => r.angular_bits,
                SimilarityMeasure::Cosine => r.cosine_bits,
            },
    {
        match self {
            SimilarityMeasure::Angular => r.angular_bits,
            SimilarityMeasure::Cosine => r.cosine_bits,
        }
    }
}

} // verus!
