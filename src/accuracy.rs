//! Scoring of analogy instances and their aggregation into per-section counts.
use vstd::prelude::*;

use crate::analogies::{AnalogyFile, Instance};
use crate::similarity::{collection_words, ff_is_vocab_word, Collection};
use crate::text::{lemma_lex_irreflexive, lemma_lex_total, lemma_lex_transitive, lex_less, lex_lt, same_chars};

verus! {

/// What became of one analogy instance.
#[derive(Clone, Copy, Debug, PartialEq, Eq, Structural)]
pub enum Outcome {
    /// The answer has no embedding: the instance is not evaluated.
    Skipped,
    /// The instance was evaluated; `cos_micros` is the cosine similarity of the
    /// predicted word in millionths.
    Scored { correct: bool, cos_micros: i32 },
}

/// The outcome of an instance with answer `answer`, given whether the answer is in
/// the vocabulary and the best candidate with its cosine similarity, if the query
/// could be answered at all.
pub open spec fn outcome_of(answer: Seq<char>, known: bool, top: Option<(Seq<char>, i32)>) -> Outcome {
    if !known {
        Outcome::Skipped
    } else {
        match top {
            Some(t) => Outcome::Scored { correct: t.0 == answer, cos_micros: t.1 },
            None => Outcome::Scored { correct: false, cos_micros: 0 },
        }
    }
}

/// Scores one instance. An instance whose answer is unknown is skipped; one
/// whose query could not be answered counts as wrong with a similarity of zero;
/// otherwise it is correct when the best candidate is the answer.
pub fn score_instance(answer: &str, answer_known: bool, top: Option<(String, i32)>) -> (r: Outcome)
    ensures
        r == outcome_of(answer@, answer_known, top_view(top)),
{
    if !answer_known {
        return Outcome::Skipped;
    }
    match top {
        Some(t) => Outcome::Scored { correct: same_chars(t.0.as_str(), answer), cos_micros: t.1 },
        None => Outcome::Scored { correct: false, cos_micros: 0 },
    }
}

/// The best candidate of a query with its cosine similarity, as character sequences.
pub open spec fn top_view(top: Option<(String, i32)>) -> Option<(Seq<char>, i32)> {
    match top {
        Some(t) => Some((t.0@, t.1)),
        None => None,
    }
}

/// Scores an instance against a collection, given the best candidate for its
/// query: skipped when the vocabulary does not hold the answer as a word of its
/// own, scored as `score_instance` does otherwise.
pub fn evaluate_instance(c: &Collection, instance: &Instance, top: Option<(String, i32)>) -> (r: Outcome)
    ensures
        r == outcome_of(
            instance.answer@,
            collection_words(c.inner()).contains(instance.answer@),
            top_view(top),
        ),
{
    let known = ff_is_vocab_word(c.embeddings(), instance.answer.as_str());
    score_instance(instance.answer.as_str(), known, top)
}

/// Counts of a set of outcomes, as mathematical integers.
pub struct Totals {
    pub correct: nat,
    pub instances: nat,
    pub skipped: nat,
    pub cos: int,
}

pub open spec fn zero_totals() -> Totals {
    Totals { correct: 0, instances: 0, skipped: 0, cos: 0 }
}

/// `t` with one more outcome.
pub open spec fn add_outcome(t: Totals, o: Outcome) -> Totals {
    match o {
        Outcome::Skipped => Totals { skipped: t.skipped + 1, ..t },
        Outcome::Scored { correct, cos_micros } => Totals {
            correct: if correct {
                t.correct + 1
            } else {
                t.correct
            },
            instances: t.instances + 1,
            cos: t.cos + cos_micros,
            ..t
        },
    }
}

/// The counts of two disjoint sets of outcomes together.
pub open spec fn plus(a: Totals, b: Totals) -> Totals {
    Totals {
        correct: a.correct + b.correct,
        instances: a.instances + b.instances,
        skipped: a.skipped + b.skipped,
        cos: a.cos + b.cos,
    }
}

/// The counts of the outcomes in `outs` whose section is `s`.
pub open spec fn totals_in(outs: Seq<(usize, Outcome)>, s: int) -> Totals
    decreases outs.len(),
{
    if outs.len() == 0 {
        zero_totals()
    } else {
        let rest = totals_in(outs.drop_last(), s);
        if outs.last().0 == s {
            add_outcome(rest, outs.last().1)
        } else {
            rest
        }
    }
}

/// The number of outcomes in `outs` whose section is `s`.
pub open spec fn lines_in(outs: Seq<(usize, Outcome)>, s: int) -> nat
    decreases outs.len(),
{
    if outs.len() == 0 {
        0
    } else {
        lines_in(outs.drop_last(), s) + if outs.last().0 == s {
            1nat
        } else {
            0nat
        }
    }
}

/// The counts of all outcomes in `outs`, whatever their section.
pub open spec fn totals_all(outs: Seq<(usize, Outcome)>) -> Totals
    decreases outs.len(),
{
    if outs.len() == 0 {
        zero_totals()
    } else {
        add_outcome(totals_all(outs.drop_last()), outs.last().1)
    }
}

/// Each instance of `file` with its section, paired with its outcome.
pub open spec fn outcomes_of(file: &AnalogyFile, outcomes: Seq<Outcome>) -> Seq<(usize, Outcome)> {
    Seq::new(outcomes.len(), |j: int| (file.instances@[j].section, outcomes[j]))
}

/// Within a section the correct instances are among the evaluated ones, and
/// evaluated and skipped instances together are all the instances of the section.
pub proof fn lemma_section_counts_consistent(outs: Seq<(usize, Outcome)>, s: int)
    ensures
        totals_in(outs, s).correct <= totals_in(outs, s).instances,
        totals_in(outs, s).instances + totals_in(outs, s).skipped == lines_in(outs, s),
        lines_in(outs, s) <= outs.len(),
        -2147483648 * totals_in(outs, s).instances <= totals_in(outs, s).cos <= 2147483647
            * totals_in(outs, s).instances,
    decreases outs.len(),
{
    if outs.len() > 0 {
        lemma_section_counts_consistent(outs.drop_last(), s);
    }
}

/// Over all sections the correct instances are among the evaluated ones, and
/// evaluated and skipped instances together are all the instances.
pub proof fn lemma_total_counts_consistent(outs: Seq<(usize, Outcome)>)
    ensures
        totals_all(outs).correct <= totals_all(outs).instances,
        totals_all(outs).instances + totals_all(outs).skipped == outs.len(),
        -2147483648 * totals_all(outs).instances <= totals_all(outs).cos <= 2147483647
            * totals_all(outs).instances,
    decreases outs.len(),
{
    if outs.len() > 0 {
        lemma_total_counts_consistent(outs.drop_last());
    }
}

/// Counting two runs of outcomes apart and adding the counts gives the counts
/// of the two runs together: the counts do not depend on how the outcomes were
/// divided among workers.
pub proof fn lemma_totals_split(outs1: Seq<(usize, Outcome)>, outs2: Seq<(usize, Outcome)>, s: int)
    ensures
        totals_in(outs1 + outs2, s) == plus(totals_in(outs1, s), totals_in(outs2, s)),
        totals_all(outs1 + outs2) == plus(totals_all(outs1), totals_all(outs2)),
    decreases outs2.len(),
{
    if outs2.len() == 0 {
        assert(outs1 + outs2 =~= outs1);
    } else {
        assert((outs1 + outs2).drop_last() =~= outs1 + outs2.drop_last());
        lemma_totals_split(outs1, outs2.drop_last(), s);
    }
}

/// The counts of sections `0..n` added up.
pub open spec fn sum_sections(outs: Seq<(usize, Outcome)>, n: int) -> Totals
    decreases n,
{
    if n <= 0 {
        zero_totals()
    } else {
        plus(sum_sections(outs, n - 1), totals_in(outs, n - 1))
    }
}

proof fn lemma_sum_sections_step(outs: Seq<(usize, Outcome)>, n: int)
    requires
        outs.len() > 0,
    ensures
        sum_sections(outs, n) == if 0 <= outs.last().0 < n {
            add_outcome(sum_sections(outs.drop_last(), n), outs.last().1)
        } else {
            sum_sections(outs.drop_last(), n)
        },
    decreases n,
{
    if n > 0 {
        lemma_sum_sections_step(outs, n - 1);
    }
}

/// When every outcome belongs to one of the sections `0..n`, the counts of
/// those sections add up to the counts over all sections.
pub proof fn lemma_sections_sum_to_total(outs: Seq<(usize, Outcome)>, n: int)
    requires
        forall|j: int| 0 <= j < outs.len() ==> #[trigger] outs[j].0 < n,
    ensures
        sum_sections(outs, n) == totals_all(outs),
    decreases outs.len(),
{
    if outs.len() > 0 {
        let rest = outs.drop_last();
        assert forall|j: int| 0 <= j < rest.len() implies #[trigger] rest[j].0 < n by {
            assert(rest[j] == outs[j]);
        }
        lemma_sections_sum_to_total(rest, n);
        lemma_sum_sections_step(outs, n);
        assert(outs.last() == outs[outs.len() - 1]);
    } else {
        lemma_sum_sections_empty(outs, n);
    }
}

proof fn lemma_sum_sections_empty(outs: Seq<(usize, Outcome)>, n: int)
    requires
        outs.len() == 0,
    ensures
        sum_sections(outs, n) == zero_totals(),
    decreases n,
{
    if n > 0 {
        lemma_sum_sections_empty(outs, n - 1);
    }
}

/// Adding counts does not depend on the order of the two summands.
pub proof fn lemma_plus_commutes(a: Totals, b: Totals)
    ensures
        plus(a, b) == plus(b, a),
{
}

/// The counts of outcomes do not depend on the order in which the outcomes come.
pub proof fn lemma_totals_permutation(outs1: Seq<(usize, Outcome)>, outs2: Seq<(usize, Outcome)>, s: int)
    requires
        outs1.to_multiset() == outs2.to_multiset(),
    ensures
        totals_in(outs1, s) == totals_in(outs2, s),
        totals_all(outs1) == totals_all(outs2),
    decreases outs1.len(),
{
    broadcast use vstd::seq_lib::group_to_multiset_ensures;

    outs1.to_multiset_ensures();
    outs2.to_multiset_ensures();
    if outs1.len() == 0 {
        assert(outs2.len() == 0);
        assert(outs1 =~= outs2);
    } else {
        let x = outs1.last();
        let rest1 = outs1.drop_last();
        assert(outs1 =~= rest1.push(x));
        assert(outs1.to_multiset().count(x) > 0);
        assert(outs2.contains(x));
        let j = choose|j: int| 0 <= j < outs2.len() && outs2[j] == x;
        let rest2 = outs2.remove(j);
        assert(rest1.to_multiset() =~= outs1.to_multiset().remove(x));
        assert(rest2.to_multiset() =~= outs2.to_multiset().remove(x));
        lemma_totals_permutation(rest1, rest2, s);
        let pre = outs2.take(j);
        let post = outs2.skip(j + 1);
        assert(outs2 =~= pre + (seq![x] + post));
        assert(rest2 =~= pre + post);
        lemma_totals_split(pre, seq![x] + post, s);
        lemma_totals_split(seq![x], post, s);
        lemma_totals_split(pre, post, s);
        let one = seq![x];
        assert(one.drop_last() =~= Seq::<(usize, Outcome)>::empty());
        assert(one.last() == x);
        assert(totals_in(one.drop_last(), s) == zero_totals());
        assert(totals_all(one.drop_last()) == zero_totals());
        assert(totals_in(one, s) == if x.0 == s {
            add_outcome(zero_totals(), x.1)
        } else {
            zero_totals()
        });
        assert(totals_all(one) == add_outcome(zero_totals(), x.1));
        assert(outs1.last() == x);
        assert(totals_in(outs2, s) == plus(totals_in(pre, s), plus(totals_in(one, s), totals_in(post, s))));
        assert(totals_in(rest2, s) == plus(totals_in(pre, s), totals_in(post, s)));
        assert(totals_all(outs2) == plus(totals_all(pre), plus(totals_all(one), totals_all(post))));
        assert(totals_all(rest2) == plus(totals_all(pre), totals_all(post)));
    }
}

/// Counts of the outcomes of one section, or of all sections.
#[derive(Clone, Copy, Debug, PartialEq, Eq, Structural)]
pub struct Counts {
    pub n_correct: usize,
    pub n_instances: usize,
    pub n_skipped: usize,
    /// Sum of the cosine similarities of the evaluated instances, in millionths.
    pub sum_cos_micros: i128,
}

impl View for Counts {
    type V = Totals;

    open spec fn view(&self) -> Totals {
        Totals {
            correct: self.n_correct as nat,
            instances: self.n_instances as nat,
            skipped: self.n_skipped as nat,
            cos: self.sum_cos_micros as int,
        }
    }
}

impl Counts {
    /// No outcomes.
    pub fn new() -> (r: Counts)
        ensures
            r@ == zero_totals(),
    {
        Counts { n_correct: 0, n_instances: 0, n_skipped: 0, sum_cos_micros: 0 }
    }

    /// Whether any instance was evaluated, so that accuracy and average
    /// similarity are defined.
    pub fn has_instances(&self) -> (r: bool)
        ensures
            r == (self.n_instances > 0),
    {
        self.n_instances > 0
    }

    /// The number of instances, evaluated or skipped.
    pub fn lines(&self) -> (r: u128)
        ensures
            r == self.n_instances + self.n_skipped,
    {
        self.n_instances as u128 + self.n_skipped as u128
    }

    /// Whether any instance was evaluated or skipped, so that the share of
    /// skipped instances is defined.
    pub fn has_lines(&self) -> (r: bool)
        ensures
            r == (self.n_instances + self.n_skipped > 0),
    {
        self.n_instances > 0 || self.n_skipped > 0
    }

    fn add(&mut self, o: Outcome)
        requires
            old(self)@.instances + old(self)@.skipped < usize::MAX,
            old(self)@.correct <= old(self)@.instances,
            -2147483648 * old(self)@.instances <= old(self)@.cos <= 2147483647
                * old(self)@.instances,
        ensures
            final(self)@ == add_outcome(old(self)@, o),
    {
        match o {
            Outcome::Skipped => {
                self.n_skipped = self.n_skipped + 1;
            },
            Outcome::Scored { correct, cos_micros } => {
                if correct {
                    self.n_correct = self.n_correct + 1;
                }
                self.n_instances = self.n_instances + 1;
                self.sum_cos_micros = self.sum_cos_micros + cos_micros as i128;
            },
        }
    }
}

/// Outcome counts per section, and over all sections.
pub struct SectionCounts {
    /// The counts of section `s` of the file at index `s`.
    pub sections: Vec<Counts>,
    pub total: Counts,
}

/// Counts the outcomes of the instances of `file`, where `outcomes[j]` is the
/// outcome of instance `j`.
pub fn tally(file: &AnalogyFile, outcomes: &Vec<Outcome>) -> (r: SectionCounts)
    requires
        file.wf(),
        outcomes@.len() == file.instances@.len(),
    ensures
        r.sections@.len() == file.sections@.len(),
        forall|s: int|
            0 <= s < r.sections@.len() ==> #[trigger] r.sections@[s]@ == totals_in(
                outcomes_of(file, outcomes@),
                s,
            ),
        r.total@ == totals_all(outcomes_of(file, outcomes@)),
        r.total@ == sum_sections(outcomes_of(file, outcomes@), file.sections@.len() as int),
{
    let ghost outs = outcomes_of(file, outcomes@);
    let n_sections = file.sections.len();
    let mut sections: Vec<Counts> = Vec::new();
    while sections.len() < n_sections
        invariant
            sections@.len() <= n_sections,
            forall|s: int| 0 <= s < sections@.len() ==> #[trigger] sections@[s]@ == zero_totals(),
        decreases n_sections - sections@.len(),
    {
        sections.push(Counts::new());
    }
    let mut total = Counts::new();
    let mut j: usize = 0;
    while j < outcomes.len()
        invariant
            file.wf(),
            outcomes@.len() == file.instances@.len(),
            outs == outcomes_of(file, outcomes@),
            j <= outcomes@.len(),
            sections@.len() == n_sections,
            n_sections == file.sections@.len(),
            forall|s: int|
                0 <= s < sections@.len() ==> #[trigger] sections@[s]@ == totals_in(
                    outs.take(j as int),
                    s,
                ),
            total@ == totals_all(outs.take(j as int)),
        decreases outcomes@.len() - j,
    {
        let s = file.instances[j].section;
        let o = outcomes[j];
        proof {
            assert(outs.take(j + 1).drop_last() =~= outs.take(j as int));
            assert(outs.take(j + 1).last() == (s, o));
            lemma_section_counts_consistent(outs.take(j as int), s as int);
            lemma_total_counts_consistent(outs.take(j as int));
        }
        let mut c = sections[s];
        c.add(o);
        sections.set(s, c);
        total.add(o);
        j = j + 1;
        proof {
            assert forall|t: int| 0 <= t < sections@.len() implies #[trigger] sections@[t]@
                == totals_in(outs.take(j as int), t) by {
                assert(outs.take(j as int).drop_last() =~= outs.take(j - 1));
            }
        }
    }
    proof {
        assert(outs.take(outcomes@.len() as int) =~= outs);
        assert forall|j: int| 0 <= j < outs.len() implies #[trigger] outs[j].0 < file.sections@.len() by {
            assert(file.instances@[j].section < file.sections@.len());
        }
        lemma_sections_sum_to_total(outs, file.sections@.len() as int);
    }
    SectionCounts { sections, total }
}

/// The counts of one section, under its label.
pub struct SectionReport {
    pub name: String,
    pub counts: Counts,
}

/// The counts of every section, by label in lexicographic order, and over all sections.
pub struct Report {
    pub sections: Vec<SectionReport>,
    pub total: Counts,
}

/// The indices of `names`, ordered by the names they hold.
fn order_by_name(names: &Vec<String>) -> (r: Vec<usize>)
    requires
        forall|s: int, t: int| 0 <= s < t < names@.len() ==> names@[s]@ != names@[t]@,
    ensures
        r@.len() == names@.len(),
        forall|i: int| 0 <= i < r@.len() ==> #[trigger] r@[i] < names@.len(),
        forall|s: usize| s < names@.len() ==> #[trigger] r@.contains(s),
        forall|i: int, k: int|
            0 <= i < k < r@.len() ==> lex_lt(names@[r@[i] as int]@, names@[r@[k] as int]@),
{
    let mut order: Vec<usize> = Vec::new();
    let mut s: usize = 0;
    while s < names.len()
        invariant
            s <= names@.len(),
            forall|a: int, b: int| 0 <= a < b < names@.len() ==> names@[a]@ != names@[b]@,
            order@.len() == s,
            forall|i: int| 0 <= i < order@.len() ==> #[trigger] order@[i] < s,
            forall|t: usize| t < s ==> #[trigger] order@.contains(t),
            forall|i: int, k: int|
                0 <= i < k < order@.len() ==> lex_lt(
                    names@[order@[i] as int]@,
                    names@[order@[k] as int]@,
                ),
        decreases names@.len() - s,
    {
        let mut p: usize = 0;
        while p < order.len() && lex_less(names[order[p]].as_str(), names[s].as_str())
            invariant
                p <= order@.len(),
                s < names@.len(),
                forall|i: int| 0 <= i < order@.len() ==> #[trigger] order@[i] < s,
                forall|i: int|
                    0 <= i < p ==> lex_lt(#[trigger] names@[order@[i] as int]@, names@[s as int]@),
            decreases order@.len() - p,
        {
            p = p + 1;
        }
        let ghost before = order@;
        proof {
            if p < before.len() {
                let q = before[p as int] as int;
                assert(!lex_lt(names@[q]@, names@[s as int]@));
                assert(names@[q]@ != names@[s as int]@);
                lemma_lex_total(names@[q]@, names@[s as int]@);
            }
        }
        order.insert(p, s);
        proof {
            assert(order@ =~= before.take(p as int).push(s).add(before.skip(p as int)));
            assert forall|i: int, k: int| 0 <= i < k < order@.len() implies lex_lt(
                names@[order@[i] as int]@,
                names@[order@[k] as int]@,
            ) by {
                if k < p {
                } else if k == p {
                    assert(order@[i] == before[i]);
                } else if i < p {
                    assert(order@[k] == before[k - 1]);
                    if p < before.len() {
                        assert(lex_lt(names@[s as int]@, names@[before[p as int] as int]@));
                    }
                    if k - 1 > p {
                        lemma_lex_transitive(
                            names@[s as int]@,
                            names@[before[p as int] as int]@,
                            names@[before[k - 1] as int]@,
                        );
                    }
                    lemma_lex_transitive(
                        names@[before[i] as int]@,
                        names@[s as int]@,
                        names@[before[k - 1] as int]@,
                    );
                } else if i == p {
                    assert(order@[k] == before[k - 1]);
                    if k - 1 > p {
                        lemma_lex_transitive(
                            names@[s as int]@,
                            names@[before[p as int] as int]@,
                            names@[before[k - 1] as int]@,
                        );
                    }
                } else {
                    assert(order@[i] == before[i - 1]);
                    assert(order@[k] == before[k - 1]);
                }
            }
            assert forall|t: usize| t < s + 1 implies #[trigger] order@.contains(t) by {
                if t < s {
                    assert(before.contains(t));
                    let i = choose|i: int| 0 <= i < before.len() && before[i] == t;
                    if i < p {
                        assert(order@[i] == t);
                    } else {
                        assert(order@[i + 1] == t);
                    }
                } else {
                    assert(order@[p as int] == s);
                }
            }
        }
        s = s + 1;
    }
    order
}

/// Whether `entry` holds the label and the counts of section `s`.
pub open spec fn shows(entry: SectionReport, file: &AnalogyFile, counts: &SectionCounts, s: int) -> bool {
    &&& entry.name@ == file.sections@[s]@
    &&& entry.counts == counts.sections@[s]
}

/// Whether `entry` holds the label and the counts of some section.
pub open spec fn shows_some(entry: SectionReport, file: &AnalogyFile, counts: &SectionCounts) -> bool {
    exists|s: int| 0 <= s < file.sections@.len() && #[trigger] shows(entry, file, counts, s)
}

/// Whether some entry of `entries` holds the label and the counts of section `s`.
pub open spec fn listed(entries: Seq<SectionReport>, file: &AnalogyFile, counts: &SectionCounts, s: int) -> bool {
    exists|i: int| 0 <= i < entries.len() && #[trigger] shows(entries[i], file, counts, s)
}

/// Arranges the counts of every section under its label, with the labels in
/// lexicographic order, and the counts over all sections.
pub fn report(file: &AnalogyFile, counts: &SectionCounts) -> (r: Report)
    requires
        file.wf(),
        counts.sections@.len() == file.sections@.len(),
    ensures
        r.total == counts.total,
        r.sections@.len() == file.sections@.len(),
        forall|i: int, k: int|
            0 <= i < k < r.sections@.len() ==> lex_lt(r.sections@[i].name@, r.sections@[k].name@),
        forall|i: int|
            0 <= i < r.sections@.len() ==> #[trigger] shows_some(r.sections@[i], file, counts),
        forall|s: int| 0 <= s < file.sections@.len() ==> #[trigger] listed(r.sections@, file, counts, s),
{
    let order = order_by_name(&file.sections);
    let mut sections: Vec<SectionReport> = Vec::new();
    let mut i: usize = 0;
    while i < order.len()
        invariant
            file.wf(),
            counts.sections@.len() == file.sections@.len(),
            order@.len() == file.sections@.len(),
            forall|m: int| 0 <= m < order@.len() ==> #[trigger] order@[m] < file.sections@.len(),
            i <= order@.len(),
            sections@.len() == i,
            forall|m: int|
                0 <= m < i ==> #[trigger] sections@[m].name@ == file.sections@[order@[m] as int]@
                    && sections@[m].counts == counts.sections@[order@[m] as int],
        decreases order@.len() - i,
    {
        let s = order[i];
        sections.push(SectionReport { name: file.sections[s].clone(), counts: counts.sections[s] });
        i = i + 1;
    }
    proof {
        assert forall|i: int|
            0 <= i < sections@.len() implies #[trigger] shows_some(sections@[i], file, counts) by {
            let s = order@[i] as int;
            assert(shows(sections@[i], file, counts, s));
        }
        assert forall|s: int|
            0 <= s < file.sections@.len() implies #[trigger] listed(sections@, file, counts, s) by {
            assert(order@.contains(s as usize));
            let i = choose|i: int| 0 <= i < order@.len() && order@[i] == s as usize;
            assert(shows(sections@[i], file, counts, s));
        }
    }
    Report { sections, total: counts.total }
}

} // verus!
