//! Analogy queries as users write them: three tokens on a line.
use vstd::prelude::*;

use crate::similarity::{
    analogy_scores, at_most, avoids, best_of, collection_words, drawn_from, eligible,
    embeddable_words, others, rank, ranked, solve, word_scores, Collection, Scored,
};
use crate::text::{same_chars, split_words, trim, trimmed, views, words};

verus! {

/// Reads an analogy query, three tokens separated by white space. Fails with
/// the number of tokens when there are not three.
pub fn parse_query(line: &str) -> (r: Result<(String, String, String), usize>)
    ensures
        match r {
            Ok(q) => words(line@) == seq![q.0@, q.1@, q.2@],
            Err(n) => n == words(line@).len() && n != 3,
        },
{
    let tokens = split_words(line);
    assert(views(tokens@).len() == tokens@.len());
    if tokens.len() != 3 {
        return Err(tokens.len());
    }
    let q = (tokens[0].clone(), tokens[1].clone(), tokens[2].clone());
    proof {
        assert(views(tokens@)[0] == tokens@[0]@);
        assert(views(tokens@)[1] == tokens@[1]@);
        assert(views(tokens@)[2] == tokens@[2]@);
        assert(words(line@) =~= seq![q.0@, q.1@, q.2@]);
    }
    Ok(q)
}

/// Whether `names` holds the name `n`.
pub open spec fn names_contain(names: Seq<String>, n: Seq<char>) -> bool {
    exists|i: int| 0 <= i < names.len() && #[trigger] names[i]@ == n
}

fn contains_name(names: &Vec<String>, n: &str) -> (r: bool)
    ensures
        r == names_contain(names@, n@),
{
    let mut i: usize = 0;
    while i < names.len()
        invariant
            i <= names@.len(),
            forall|m: int| 0 <= m < i ==> #[trigger] names@[m]@ != n@,
        decreases names@.len() - i,
    {
        if same_chars(names[i].as_str(), n) {
            return true;
        }
        i = i + 1;
    }
    false
}

/// Which of the query tokens `a`, `b` and `c` to exclude from the answers, given
/// the names of those that may be answers: each one not named is excluded. With
/// no names given all three are excluded.
pub fn excludes_from_includes(includes: &Vec<String>) -> (r: [bool; 3])
    ensures
        r@[0] == !names_contain(includes@, "a"@),
        r@[1] == !names_contain(includes@, "b"@),
        r@[2] == !names_contain(includes@, "c"@),
{
    let exclude_a = !contains_name(includes, "a");
    let exclude_b = !contains_name(includes, "b");
    let exclude_c = !contains_name(includes, "c");
    [exclude_a, exclude_b, exclude_c]
}

/// The tokens among `a`, `b`, `c`, in this order, whose flag in `present` is not set.
pub open spec fn missing(q: (Seq<char>, Seq<char>, Seq<char>), present: Seq<bool>) -> Seq<Seq<char>> {
    (if present[0] {
        Seq::empty()
    } else {
        seq![q.0]
    }) + (if present[1] {
        Seq::empty()
    } else {
        seq![q.1]
    }) + (if present[2] {
        Seq::empty()
    } else {
        seq![q.2]
    })
}

/// The query tokens that have no embedding, given which of them have one.
pub fn missing_tokens(query: &(String, String, String), present: [bool; 3]) -> (r: Vec<String>)
    ensures
        views(r@) == missing((query.0@, query.1@, query.2@), present@),
{
    let mut r: Vec<String> = Vec::new();
    if !present[0] {
        r.push(query.0.clone());
    }
    if !present[1] {
        r.push(query.1.clone());
    }
    if !present[2] {
        r.push(query.2.clone());
    }
    assert(views(r@) =~= missing((query.0@, query.1@, query.2@), present@));
    r
}

/// What an analogy query line yields.
pub enum AnalogyAnswer {
    /// The line holds no token.
    Blank,
    /// The line holds this many tokens, neither none nor three.
    Malformed(usize),
    /// These query tokens have no embedding.
    Missing(Vec<String>),
    /// The best answers, best first.
    Found(Vec<Scored>),
}

/// Which of the three tokens of a query have an embedding in the collection.
pub open spec fn present_in(c: &Collection, q: Seq<Seq<char>>) -> Seq<bool> {
    seq![
        embeddable_words(c.inner()).contains(q[0]),
        embeddable_words(c.inner()).contains(q[1]),
        embeddable_words(c.inner()).contains(q[2]),
    ]
}

/// Answers the analogy query on a line with the `k` best words, leaving out the
/// query tokens whose flag in `exclude` is set.
pub fn answer_analogy(c: &Collection, line: &str, exclude: [bool; 3], k: usize) -> (r: AnalogyAnswer)
    requires
        k >= 1,
    ensures
        (r is Blank) == (words(line@).len() == 0),
        (r is Malformed) == (words(line@).len() != 0 && words(line@).len() != 3),
        r matches AnalogyAnswer::Malformed(n) ==> n == words(line@).len(),
        words(line@).len() == 3 ==> {
            let q = words(line@);
            let present = present_in(c, q);
            &&& (r is Missing) == !(present[0] && present[1] && present[2])
            &&& collection_words(c.inner()).contains(q[0]) && collection_words(c.inner()).contains(q[1])
                && collection_words(c.inner()).contains(q[2]) ==> r is Found
            &&& r matches AnalogyAnswer::Missing(m) ==> views(m@) == missing((q[0], q[1], q[2]), present)
            &&& r matches AnalogyAnswer::Found(rs) ==> {
                &&& rs@.len() == at_most(k, eligible(collection_words(c.inner()), q, exclude@).len())
                &&& drawn_from(rs@, eligible(collection_words(c.inner()), q, exclude@))
                &&& ranked(rs@)
                &&& best_of(rs@, eligible(collection_words(c.inner()), q, exclude@), analogy_scores(c.inner()), q)
            }
        },
{
    let query = match parse_query(line) {
        Ok(q) => q,
        Err(n) => {
            if n == 0 {
                return AnalogyAnswer::Blank;
            }
            return AnalogyAnswer::Malformed(n);
        },
    };
    let ghost q = words(line@);
    let r = solve(c, query.0.as_str(), query.1.as_str(), query.2.as_str(), exclude, k);
    proof {
        assert(q =~= seq![query.0@, query.1@, query.2@]);
    }
    match r {
        Ok(rs) => AnalogyAnswer::Found(rs),
        Err(present) => {
            proof {
                assert(present@ =~= present_in(c, q));
            }
            AnalogyAnswer::Missing(missing_tokens(&query, present))
        },
    }
}

/// What a similarity query line yields.
pub enum SimilarAnswer {
    /// The line holds only white space.
    Blank,
    /// No embedding can be computed for this word.
    Unknown(String),
    /// The most similar words, most similar first.
    Found(Vec<Scored>),
}

/// Answers the similarity query on a line, the line without white space at
/// either end being the query word, with the `k` most similar words.
pub fn answer_similar(c: &Collection, line: &str, k: usize) -> (r: SimilarAnswer)
    requires
        k >= 1,
    ensures
        (r is Blank) == (trimmed(line@).len() == 0),
        (r is Unknown) == (trimmed(line@).len() != 0 && !embeddable_words(c.inner()).contains(
            trimmed(line@),
        )),
        trimmed(line@).len() != 0 && collection_words(c.inner()).contains(trimmed(line@)) ==> r is Found,
        r matches SimilarAnswer::Unknown(w) ==> w@ == trimmed(line@),
        r matches SimilarAnswer::Found(rs) ==> {
            &&& rs@.len() == at_most(k, others(collection_words(c.inner()), trimmed(line@)).len())
            &&& drawn_from(rs@, collection_words(c.inner()))
            &&& avoids(rs@, trimmed(line@))
            &&& ranked(rs@)
            &&& best_of(rs@, others(collection_words(c.inner()), trimmed(line@)), word_scores(c.inner()), trimmed(line@))
        },
{
    let word = trim(line);
    if word.unicode_len() == 0 {
        return SimilarAnswer::Blank;
    }
    match rank(c, word.as_str(), k) {
        Some(rs) => SimilarAnswer::Found(rs),
        None => SimilarAnswer::Unknown(word),
    }
}

} // verus!
