//! The frequency table of one document: how often each token occurs in it.

use crate::lexer::{chars_of, tokens, Lexer};
use vstd::prelude::*;

verus! {

/// How often `term` occurs in `list`.
pub open spec fn occurrences(list: Seq<Seq<char>>, term: Seq<char>) -> nat
    decreases list.len(),
{
    if list.len() == 0 {
        0
    } else {
        occurrences(list.drop_last(), term) + if list.last() == term {
            1nat
        } else {
            0nat
        }
    }
}

/// A frequency table as a value: the count of each term that occurs, and
/// the number of tokens.
#[verifier::ext_equal]
pub struct Table {
    pub counts: Map<Seq<char>, nat>,
    pub total: nat,
}

/// The table of a list of tokens: each token that occurs, with the number of
/// its occurrences, and the length of the list.
pub open spec fn frequencies(list: Seq<Seq<char>>) -> Table {
    Table {
        counts: Map::new(
            |term: Seq<char>| occurrences(list, term) > 0,
            |term: Seq<char>| occurrences(list, term),
        ),
        total: list.len(),
    }
}

/// One line of a frequency table.
pub struct TermCount {
    pub term: String,
    pub count: usize,
}

/// No term stands on two lines.
pub open spec fn distinct_terms(lines: Seq<TermCount>) -> bool {
    forall|i: int, j: int|
        0 <= i < j < lines.len() ==> (#[trigger] lines[i]).term@ != (#[trigger] lines[j]).term@
}

/// The sum of the counts of all lines.
pub open spec fn sum_counts(lines: Seq<TermCount>) -> nat
    decreases lines.len(),
{
    if lines.len() == 0 {
        0
    } else {
        sum_counts(lines.drop_last()) + lines.last().count as nat
    }
}

/// The lines as a mapping from term to count; a later line wins.
pub open spec fn counts_of(lines: Seq<TermCount>) -> Map<Seq<char>, nat>
    decreases lines.len(),
{
    if lines.len() == 0 {
        Map::empty()
    } else {
        counts_of(lines.drop_last()).insert(lines.last().term@, lines.last().count as nat)
    }
}

/// One more token: its own count grows by one, the others stay.
pub proof fn lemma_occurrences_push(list: Seq<Seq<char>>, token: Seq<char>, term: Seq<char>)
    ensures
        occurrences(list.push(token), term) == occurrences(list, term) + if token == term {
            1nat
        } else {
            0nat
        },
{
    assert(list.push(token).drop_last() == list);
}

/// Without its last line a list keeps its terms distinct.
pub proof fn lemma_distinct_front(lines: Seq<TermCount>)
    requires
        distinct_terms(lines),
        lines.len() > 0,
    ensures
        distinct_terms(lines.drop_last()),
{
    let front = lines.drop_last();
    assert forall|a: int, b: int| 0 <= a < b < front.len() implies (#[trigger] front[a]).term@ != (
    #[trigger] front[b]).term@ by {
        assert(front[a] == lines[a] && front[b] == lines[b]);
    }
}

/// The terms of the mapping are the terms of the lines.
pub proof fn lemma_counts_of_domain(lines: Seq<TermCount>, term: Seq<char>)
    ensures
        counts_of(lines).contains_key(term) <==> exists|i: int|
            0 <= i < lines.len() && (#[trigger] lines[i]).term@ == term,
    decreases lines.len(),
{
    if lines.len() > 0 {
        let front = lines.drop_last();
        lemma_counts_of_domain(front, term);
        if counts_of(lines).contains_key(term) {
            if lines.last().term@ == term {
                assert(lines[lines.len() - 1].term@ == term);
            } else {
                let i = choose|i: int| 0 <= i < front.len() && (#[trigger] front[i]).term@ == term;
                assert(lines[i].term@ == term);
            }
        }
        if exists|i: int| 0 <= i < lines.len() && (#[trigger] lines[i]).term@ == term {
            let i = choose|i: int| 0 <= i < lines.len() && (#[trigger] lines[i]).term@ == term;
            if i < lines.len() - 1 {
                assert(front[i].term@ == term);
            }
        }
    }
}

/// Where no term stands twice, the mapping gives each line its own count.
pub proof fn lemma_counts_of_line(lines: Seq<TermCount>, i: int)
    requires
        distinct_terms(lines),
        0 <= i < lines.len(),
    ensures
        counts_of(lines).contains_key(lines[i].term@),
        counts_of(lines)[lines[i].term@] == lines[i].count,
    decreases lines.len(),
{
    let front = lines.drop_last();
    if i < lines.len() - 1 {
        assert(front[i] == lines[i]);
        assert(lines[i].term@ != lines[lines.len() - 1].term@);
        lemma_distinct_front(lines);
        lemma_counts_of_line(front, i);
    }
}

/// Where no term stands twice, the mapping has as many terms as there are
/// lines.
pub proof fn lemma_counts_of_size(lines: Seq<TermCount>)
    requires
        distinct_terms(lines),
    ensures
        counts_of(lines).dom().finite(),
        counts_of(lines).dom().len() == lines.len(),
    decreases lines.len(),
{
    if lines.len() > 0 {
        let front = lines.drop_last();
        let term = lines.last().term@;
        lemma_distinct_front(lines);
        lemma_counts_of_size(front);
        lemma_counts_of_domain(front, term);
        assert(!counts_of(front).contains_key(term)) by {
            if counts_of(front).contains_key(term) {
                let i = choose|i: int| 0 <= i < front.len() && (#[trigger] front[i]).term@ == term;
                assert(lines[i].term@ != lines[lines.len() - 1].term@);
            }
        }
        assert(counts_of(lines).dom() =~= counts_of(front).dom().insert(term));
    }
}

/// Each count is part of the sum.
pub proof fn lemma_sum_counts_bound(lines: Seq<TermCount>, i: int)
    requires
        0 <= i < lines.len(),
    ensures
        lines[i].count <= sum_counts(lines),
    decreases lines.len(),
{
    if i < lines.len() - 1 {
        lemma_sum_counts_bound(lines.drop_last(), i);
    }
}

/// Raising one count by one raises the sum by one.
pub proof fn lemma_sum_counts_update(lines: Seq<TermCount>, i: int, line: TermCount)
    requires
        0 <= i < lines.len(),
    ensures
        sum_counts(lines.update(i, line)) == sum_counts(lines) - lines[i].count + line.count,
    decreases lines.len(),
{
    let last = lines.len() - 1;
    if i < last {
        assert(lines.update(i, line).drop_last() == lines.drop_last().update(i, line));
        lemma_sum_counts_update(lines.drop_last(), i, line);
    } else {
        assert(lines.update(i, line).drop_last() == lines.drop_last());
    }
}

/// `lines` is the table of the tokens `seen`: one line for each token that
/// occurs, with the number of its occurrences.
pub open spec fn tallies(lines: Seq<TermCount>, seen: Seq<Seq<char>>) -> bool {
    &&& distinct_terms(lines)
    &&& forall|i: int|
        0 <= i < lines.len() ==> (#[trigger] lines[i]).count > 0 && lines[i].count == occurrences(
            seen,
            lines[i].term@,
        )
    &&& forall|term: Seq<char>| #[trigger]
        occurrences(seen, term) > 0 ==> exists|i: int|
            0 <= i < lines.len() && (#[trigger] lines[i]).term@ == term
    &&& sum_counts(lines) == seen.len()
}

/// The lines that tally a list of tokens hold the counts of its table.
pub proof fn lemma_tallies_frequencies(lines: Seq<TermCount>, seen: Seq<Seq<char>>)
    requires
        tallies(lines, seen),
    ensures
        counts_of(lines) == frequencies(seen).counts,
        sum_counts(lines) == frequencies(seen).total,
{
    let counts = frequencies(seen).counts;
    assert forall|term: Seq<char>| counts_of(lines).contains_key(term) <==> counts.contains_key(
        term,
    ) by {
        lemma_counts_of_domain(lines, term);
    }
    assert forall|term: Seq<char>| counts_of(lines).contains_key(term) implies counts_of(
        lines,
    )[term] == counts[term] by {
        lemma_counts_of_domain(lines, term);
        let i = choose|i: int| 0 <= i < lines.len() && (#[trigger] lines[i]).term@ == term;
        lemma_counts_of_line(lines, i);
    }
    assert(counts_of(lines) =~= counts);
}

/// Counts one more token.
fn record(lines: &mut Vec<TermCount>, token: String, Ghost(seen): Ghost<Seq<Seq<char>>>)
    requires
        tallies(old(lines)@, seen),
        seen.len() < usize::MAX,
    ensures
        tallies(final(lines)@, seen.push(token@)),
{
    let ghost before = lines@;
    let ghost after = seen.push(token@);
    let mut i: usize = 0;
    while i < lines.len() && lines[i].term != token
        invariant
            lines@ == before,
            i <= lines@.len(),
            forall|k: int| 0 <= k < i ==> (#[trigger] lines@[k]).term@ != token@,
        decreases lines@.len() - i,
    {
        i += 1;
    }
    if i < lines.len() {
        proof {
            lemma_sum_counts_bound(before, i as int);
            lemma_sum_counts_update(
                before,
                i as int,
                TermCount { term: token, count: (before[i as int].count + 1) as usize },
            );
        }
        let count = lines[i].count + 1;
        lines[i] = TermCount { term: token, count };
        assert forall|k: int| 0 <= k < lines@.len() implies (#[trigger] lines@[k]).count > 0
            && lines@[k].count == occurrences(after, lines@[k].term@) by {
            lemma_occurrences_push(seen, token@, lines@[k].term@);
            assert(before[k].term@ == lines@[k].term@);
            if k != i {
                assert(before[k].term@ != before[i as int].term@);
            }
        }
        assert forall|term: Seq<char>| #[trigger] occurrences(after, term) > 0 implies exists|
            k: int,
        |
            0 <= k < lines@.len() && (#[trigger] lines@[k]).term@ == term by {
            lemma_occurrences_push(seen, token@, term);
            if term == token@ {
                assert(lines@[i as int].term@ == term);
            } else {
                let k = choose|k: int| 0 <= k < before.len() && (#[trigger] before[k]).term@ == term;
                assert(lines@[k].term@ == term);
            }
        }
        assert(distinct_terms(lines@)) by {
            assert forall|a: int, b: int| 0 <= a < b < lines@.len() implies (#[trigger] lines@[a]).term@
                != (#[trigger] lines@[b]).term@ by {
                assert(before[a].term@ == lines@[a].term@ && before[b].term@ == lines@[b].term@);
            }
        }
    } else {
        proof {
            assert(occurrences(seen, token@) == 0) by {
                if occurrences(seen, token@) > 0 {
                    let k = choose|k: int|
                        0 <= k < before.len() && (#[trigger] before[k]).term@ == token@;
                    assert(before[k].term@ != token@);
                }
            }
        }
        lines.push(TermCount { term: token, count: 1 });
        assert(lines@.drop_last() == before);
        assert forall|k: int| 0 <= k < lines@.len() implies (#[trigger] lines@[k]).count > 0
            && lines@[k].count == occurrences(after, lines@[k].term@) by {
            lemma_occurrences_push(seen, token@, lines@[k].term@);
            if k < before.len() {
                assert(lines@[k] == before[k]);
            }
        }
        assert forall|term: Seq<char>| #[trigger] occurrences(after, term) > 0 implies exists|
            k: int,
        |
            0 <= k < lines@.len() && (#[trigger] lines@[k]).term@ == term by {
            lemma_occurrences_push(seen, token@, term);
            if term == token@ {
                assert(lines@[lines@.len() - 1].term@ == term);
            } else {
                let k = choose|k: int| 0 <= k < before.len() && (#[trigger] before[k]).term@ == term;
                assert(lines@[k].term@ == term);
            }
        }
        assert(distinct_terms(lines@)) by {
            assert forall|a: int, b: int| 0 <= a < b < lines@.len() implies (#[trigger] lines@[a]).term@
                != (#[trigger] lines@[b]).term@ by {
                assert(lines@[a] == before[a]);
                if b < before.len() {
                    assert(lines@[b] == before[b]);
                }
            }
        }
    }
}

/// The frequency table of one document. It is made in one piece from the
/// document's text and does not change afterwards.
pub struct TermFreq {
    lines: Vec<TermCount>,
    total: usize,
}

impl View for TermFreq {
    type V = Table;

    /// The count of each term that occurs, and the number of tokens.
    open spec fn view(&self) -> Table {
        Table { counts: counts_of(self.lines()), total: self.size() }
    }
}

impl TermFreq {
    /// The lines of the table: one for each term, in no order that matters.
    pub closed spec fn lines(&self) -> Seq<TermCount> {
        self.lines@
    }

    /// The number of tokens of the document.
    pub closed spec fn size(&self) -> nat {
        self.total as nat
    }

    #[verifier::type_invariant]
    spec fn well_formed(&self) -> bool {
        &&& distinct_terms(self.lines@)
        &&& forall|i: int| 0 <= i < self.lines@.len() ==> (#[trigger] self.lines@[i]).count > 0
        &&& sum_counts(self.lines@) == self.total
    }

    /// The table of a document without tokens.
    pub fn new() -> (table: Self)
        ensures
            table@ == frequencies(Seq::empty()),
            table.lines().len() == 0,
    {
        TermFreq { lines: Vec::new(), total: 0 }
    }

    /// The lines of the table. No term stands on two of them, no count is
    /// zero, and the counts add up to the number of tokens.
    pub fn terms(&self) -> (lines: &Vec<TermCount>)
        ensures
            lines@ == self.lines(),
            distinct_terms(lines@),
            forall|i: int| 0 <= i < lines@.len() ==> (#[trigger] lines@[i]).count > 0,
            sum_counts(lines@) == self@.total,
    {
        proof {
            use_type_invariant(self);
        }
        &self.lines
    }

    /// The number of distinct terms.
    pub fn len(&self) -> (n: usize)
        ensures
            n == self.lines().len(),
            self@.counts.dom().finite(),
            n == self@.counts.dom().len(),
    {
        proof {
            use_type_invariant(self);
            lemma_counts_of_size(self.lines@);
        }
        self.lines.len()
    }

    /// The number of tokens of the document: the sum of all counts.
    pub fn total(&self) -> (n: usize)
        ensures
            n == self@.total,
            n == sum_counts(self.lines()),
    {
        proof {
            use_type_invariant(self);
        }
        self.total
    }

    /// How often `term` occurs in the document; zero if it does not.
    pub fn count(&self, term: &str) -> (n: usize)
        ensures
            n == if self@.counts.contains_key(term@) {
                self@.counts[term@]
            } else {
                0
            },
            n > 0 <==> self@.counts.contains_key(term@),
            n <= self@.total,
    {
        let mut i: usize = 0;
        while i < self.lines.len()
            invariant
                i <= self.lines@.len(),
                forall|k: int| 0 <= k < i ==> (#[trigger] self.lines@[k]).term@ != term@,
            decreases self.lines@.len() - i,
        {
            if same_text(self.lines[i].term.as_str(), term) {
                proof {
                    use_type_invariant(self);
                    lemma_counts_of_domain(self.lines@, term@);
                    lemma_counts_of_line(self.lines@, i as int);
                    lemma_sum_counts_bound(self.lines@, i as int);
                }
                return self.lines[i].count;
            }
            i += 1;
        }
        proof {
            lemma_counts_of_domain(self.lines@, term@);
        }
        0
    }

    /// Whether `term` occurs in the document.
    pub fn contains_key(&self, term: &str) -> (found: bool)
        ensures
            found == self@.counts.contains_key(term@),
    {
        self.count(term) > 0
    }
}

/// `==` on `str`: two texts are equal when they hold the same characters.
pub assume_specification[ <str as PartialEq>::eq ](a: &str, b: &str) -> (same: bool)
    ensures
        same == (a@ == b@),
;

/// Whether two texts hold the same characters.
pub fn same_text(a: &str, b: &str) -> (same: bool)
    ensures
        same == (a@ == b@),
{
    *a == *b
}

/// The frequency table of a document: its text is tokenized to the end, and
/// each token is counted.
pub fn index_document(content: &str) -> (table: TermFreq)
    ensures
        table@ == frequencies(tokens(content@)),
{
    let text = chars_of(content);
    let mut lexer = Lexer::new(text.as_slice());
    let mut lines: Vec<TermCount> = Vec::new();
    let mut total: usize = 0;
    let ghost mut seen: Seq<Seq<char>> = Seq::empty();
    assert(text@.len() == text.len());
    loop
        invariant_except_break
            seen + tokens(lexer@) == tokens(content@),
        invariant
            tallies(lines@, seen),
            total == seen.len(),
            total + lexer@.len() <= text@.len() <= usize::MAX,
        ensures
            seen == tokens(content@),
        decreases lexer@.len(),
    {
        match lexer.next_token() {
            None => {
                assert(seen + Seq::<Seq<char>>::empty() == seen);
                break ;
            },
            Some(token) => {
                assert(seen.push(token@) + tokens(lexer@) == seen + (seq![token@] + tokens(
                    lexer@,
                )));
                record(&mut lines, token, Ghost(seen));
                total += 1;
                proof {
                    seen = seen.push(token@);
                }
            },
        }
    }
    proof {
        lemma_tallies_frequencies(lines@, seen);
    }
    TermFreq { lines, total }
}

} // verus!
