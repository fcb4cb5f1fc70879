//! The frequency index of a corpus: one frequency table for each document.

use crate::freq::{frequencies, index_document, same_text, Table, TermFreq};
use crate::lexer::tokens;
use vstd::prelude::*;

verus! {

/// One document of the index: the handle it goes by, and its table.
pub struct Document {
    pub path: String,
    pub table: TermFreq,
}

/// No handle stands for two documents.
pub open spec fn distinct_paths(documents: Seq<Document>) -> bool {
    forall|i: int, j: int|
        0 <= i < j < documents.len() ==> (#[trigger] documents[i]).path@
            != (#[trigger] documents[j]).path@
}

/// The documents as a mapping from handle to table; a later document wins.
pub open spec fn tables_of(documents: Seq<Document>) -> Map<Seq<char>, Table>
    decreases documents.len(),
{
    if documents.len() == 0 {
        Map::empty()
    } else {
        tables_of(documents.drop_last()).insert(documents.last().path@, documents.last().table@)
    }
}

/// The handles of the documents, in order.
pub open spec fn paths_of(documents: Seq<Document>) -> Seq<Seq<char>> {
    documents.map_values(|document: Document| document.path@)
}

/// `paths` with `path` put in: a handle that is there keeps its place, a new
/// one comes last.
pub open spec fn with_path(paths: Seq<Seq<char>>, path: Seq<char>) -> Seq<Seq<char>> {
    if paths.contains(path) {
        paths
    } else {
        paths.push(path)
    }
}

/// The number of documents in which `term` occurs.
pub open spec fn document_count(documents: Seq<Document>, term: Seq<char>) -> nat
    decreases documents.len(),
{
    if documents.len() == 0 {
        0
    } else {
        document_count(documents.drop_last(), term) + if documents.last().table@.counts.contains_key(
            term,
        ) {
            1nat
        } else {
            0nat
        }
    }
}

/// A term that occurs in every document occurs in as many as there are.
pub proof fn lemma_document_count_all(documents: Seq<Document>, term: Seq<char>)
    requires
        forall|i: int| 0 <= i < documents.len() ==> (#[trigger] documents[i]).table@.counts.contains_key(term),
    ensures
        document_count(documents, term) == documents.len(),
    decreases documents.len(),
{
    if documents.len() > 0 {
        let front = documents.drop_last();
        assert forall|i: int| 0 <= i < front.len() implies (#[trigger] front[i]).table@.counts.contains_key(
            term,
        ) by {
            assert(front[i] == documents[i]);
        }
        lemma_document_count_all(front, term);
        assert(documents[documents.len() - 1].table@.counts.contains_key(term));
    }
}

/// A term that occurs in no document is counted in none.
pub proof fn lemma_document_count_none(documents: Seq<Document>, term: Seq<char>)
    requires
        forall|i: int|
            0 <= i < documents.len() ==> !(#[trigger] documents[i]).table@.counts.contains_key(term),
    ensures
        document_count(documents, term) == 0,
    decreases documents.len(),
{
    if documents.len() > 0 {
        let front = documents.drop_last();
        assert forall|i: int| 0 <= i < front.len() implies !(#[trigger] front[i]).table@.counts.contains_key(
            term,
        ) by {
            assert(front[i] == documents[i]);
        }
        lemma_document_count_none(front, term);
        assert(!documents[documents.len() - 1].table@.counts.contains_key(term));
    }
}

/// The handles of the mapping are the handles of the documents.
pub proof fn lemma_tables_of_domain(documents: Seq<Document>, path: Seq<char>)
    ensures
        tables_of(documents).contains_key(path) <==> exists|i: int|
            0 <= i < documents.len() && (#[trigger] documents[i]).path@ == path,
    decreases documents.len(),
{
    if documents.len() > 0 {
        let front = documents.drop_last();
        lemma_tables_of_domain(front, path);
        if tables_of(documents).contains_key(path) {
            if documents.last().path@ == path {
                assert(documents[documents.len() - 1].path@ == path);
            } else {
                let i = choose|i: int| 0 <= i < front.len() && (#[trigger] front[i]).path@ == path;
                assert(documents[i].path@ == path);
            }
        }
        if exists|i: int| 0 <= i < documents.len() && (#[trigger] documents[i]).path@ == path {
            let i = choose|i: int|
                0 <= i < documents.len() && (#[trigger] documents[i]).path@ == path;
            if i < documents.len() - 1 {
                assert(front[i].path@ == path);
            }
        }
    }
}

/// Where no handle stands twice, the mapping gives each document its own
/// table.
pub proof fn lemma_tables_of_document(documents: Seq<Document>, i: int)
    requires
        distinct_paths(documents),
        0 <= i < documents.len(),
    ensures
        tables_of(documents).contains_key(documents[i].path@),
        tables_of(documents)[documents[i].path@] == documents[i].table@,
    decreases documents.len(),
{
    let front = documents.drop_last();
    if i < documents.len() - 1 {
        assert(front[i] == documents[i]);
        assert(documents[i].path@ != documents[documents.len() - 1].path@);
        lemma_distinct_front(documents);
        lemma_tables_of_document(front, i);
    }
}

/// Without its last document a list keeps its handles distinct.
pub proof fn lemma_distinct_front(documents: Seq<Document>)
    requires
        distinct_paths(documents),
        documents.len() > 0,
    ensures
        distinct_paths(documents.drop_last()),
{
    let front = documents.drop_last();
    assert forall|a: int, b: int| 0 <= a < b < front.len() implies (#[trigger] front[a]).path@ != (
    #[trigger] front[b]).path@ by {
        assert(front[a] == documents[a] && front[b] == documents[b]);
    }
}

/// Where no handle stands twice, the mapping has as many handles as there
/// are documents.
pub proof fn lemma_tables_of_size(documents: Seq<Document>)
    requires
        distinct_paths(documents),
    ensures
        tables_of(documents).dom().finite(),
        tables_of(documents).dom().len() == documents.len(),
    decreases documents.len(),
{
    if documents.len() > 0 {
        let front = documents.drop_last();
        let path = documents.last().path@;
        lemma_distinct_front(documents);
        lemma_tables_of_size(front);
        lemma_tables_of_domain(front, path);
        assert(!tables_of(front).contains_key(path)) by {
            if tables_of(front).contains_key(path) {
                let i = choose|i: int| 0 <= i < front.len() && (#[trigger] front[i]).path@ == path;
                assert(documents[i].path@ != documents[documents.len() - 1].path@);
            }
        }
        assert(tables_of(documents).dom() =~= tables_of(front).dom().insert(path));
    }
}

/// Putting a new table in the place of a document's table is `insert` on
/// the mapping.
pub proof fn lemma_tables_of_update(documents: Seq<Document>, i: int, document: Document)
    requires
        distinct_paths(documents),
        0 <= i < documents.len(),
        document.path@ == documents[i].path@,
    ensures
        distinct_paths(documents.update(i, document)),
        tables_of(documents.update(i, document)) == tables_of(documents).insert(
            document.path@,
            document.table@,
        ),
    decreases documents.len(),
{
    let changed = documents.update(i, document);
    assert forall|a: int, b: int| 0 <= a < b < changed.len() implies (#[trigger] changed[a]).path@
        != (#[trigger] changed[b]).path@ by {
        assert(changed[a].path@ == documents[a].path@ && changed[b].path@ == documents[b].path@);
    }
    let front = documents.drop_last();
    let last = documents.len() - 1;
    if i < last {
        lemma_distinct_front(documents);
        lemma_tables_of_update(front, i, document);
        assert(changed.drop_last() == front.update(i, document));
        assert(changed.last() == documents.last());
        assert(documents[i].path@ != documents[last].path@);
        assert(tables_of(changed) =~= tables_of(documents).insert(document.path@, document.table@));
    } else {
        assert(changed.drop_last() == front);
        assert(tables_of(changed) =~= tables_of(documents).insert(document.path@, document.table@));
    }
}

/// The frequency index of a corpus. No two of its documents go by the same
/// handle.
pub struct TermFreqIndex {
    documents: Vec<Document>,
}

impl View for TermFreqIndex {
    type V = Map<Seq<char>, Table>;

    /// The table of each document, by the document's handle.
    open spec fn view(&self) -> Map<Seq<char>, Table> {
        tables_of(self.documents())
    }
}

impl TermFreqIndex {
    /// The documents, in the order in which their handles were first put in.
    pub closed spec fn documents(&self) -> Seq<Document> {
        self.documents@
    }

    #[verifier::type_invariant]
    spec fn well_formed(&self) -> bool {
        distinct_paths(self.documents@)
    }

    /// An index without documents.
    pub fn new() -> (index: Self)
        ensures
            index.documents().len() == 0,
            index@ == Map::<Seq<char>, Table>::empty(),
    {
        TermFreqIndex { documents: Vec::new() }
    }

    /// The number of documents.
    pub fn len(&self) -> (n: usize)
        ensures
            n == self.documents().len(),
            self@.dom().finite(),
            n == self@.dom().len(),
    {
        proof {
            use_type_invariant(self);
            lemma_tables_of_size(self.documents@);
        }
        self.documents.len()
    }

    /// The documents, in the order in which their handles were first put in.
    /// No two go by the same handle.
    pub fn entries(&self) -> (documents: &Vec<Document>)
        ensures
            documents@ == self.documents(),
            distinct_paths(documents@),
    {
        proof {
            use_type_invariant(self);
        }
        &self.documents
    }

    /// Where the document with the handle `path` stands, if there is one.
    pub fn position(&self, path: &str) -> (place: Option<usize>)
        ensures
            match place {
                Some(i) => i < self.documents().len() && self.documents()[i as int].path@ == path@,
                None => forall|k: int|
                    0 <= k < self.documents().len() ==> (#[trigger] self.documents()[k]).path@
                        != path@,
            },
            place is Some <==> self@.contains_key(path@),
    {
        let mut i: usize = 0;
        while i < self.documents.len()
            invariant
                i <= self.documents@.len(),
                forall|k: int| 0 <= k < i ==> (#[trigger] self.documents@[k]).path@ != path@,
            decreases self.documents@.len() - i,
        {
            if same_text(self.documents[i].path.as_str(), path) {
                proof {
                    lemma_tables_of_domain(self.documents@, path@);
                }
                return Some(i);
            }
            i += 1;
        }
        proof {
            lemma_tables_of_domain(self.documents@, path@);
        }
        None
    }

    /// The table of the document with the handle `path`, if there is one.
    pub fn get(&self, path: &str) -> (found: Option<&TermFreq>)
        ensures
            match found {
                Some(table) => self@.contains_key(path@) && self@[path@] == table@,
                None => !self@.contains_key(path@),
            },
    {
        match self.position(path) {
            Some(i) => {
                proof {
                    use_type_invariant(self);
                    lemma_tables_of_document(self.documents@, i as int);
                }
                Some(&self.documents[i].table)
            },
            None => None,
        }
    }

    /// Puts `table` in under `path`. A document that already goes by this
    /// handle keeps its place and gets the new table; a new one comes last.
    pub fn insert(&mut self, path: String, table: TermFreq)
        ensures
            final(self)@ == old(self)@.insert(path@, table@),
            paths_of(final(self).documents()) == with_path(paths_of(old(self).documents()), path@),
    {
        proof {
            use_type_invariant(&*self);
        }
        let place = self.position(path.as_str());
        let mut taken = TermFreqIndex::new();
        core::mem::swap(self, &mut taken);
        let mut documents = taken.documents;
        let ghost before = documents@;
        match place {
            Some(i) => {
                proof {
                    lemma_tables_of_update(before, i as int, Document { path, table });
                }
                documents[i] = Document { path, table };
                assert(paths_of(before)[i as int] == path@);
                assert(paths_of(documents@) == paths_of(before));
            },
            None => {
                documents.push(Document { path, table });
                assert(documents@.drop_last() == before);
                assert(paths_of(documents@) == paths_of(before).push(path@));
                assert(!paths_of(before).contains(path@)) by {
                    if paths_of(before).contains(path@) {
                        let k = choose|k: int|
                            0 <= k < paths_of(before).len() && paths_of(before)[k] == path@;
                        assert(before[k].path@ == path@);
                    }
                }
                assert forall|a: int, b: int| 0 <= a < b < documents@.len() implies (
                #[trigger] documents@[a]).path@ != (#[trigger] documents@[b]).path@ by {
                    assert(documents@[a] == before[a]);
                    if b < before.len() {
                        assert(documents@[b] == before[b]);
                    }
                }
            },
        }
        *self = TermFreqIndex { documents };
    }

    /// The number of documents in which `term` occurs.
    pub fn document_frequency(&self, term: &str) -> (n: usize)
        ensures
            n == document_count(self.documents(), term@),
            n <= self.documents().len(),
    {
        let mut n: usize = 0;
        let mut i: usize = 0;
        while i < self.documents.len()
            invariant
                i <= self.documents@.len(),
                n == document_count(self.documents@.take(i as int), term@),
                n <= i,
            decreases self.documents@.len() - i,
        {
            assert(self.documents@.take(i + 1).drop_last() == self.documents@.take(i as int));
            if self.documents[i].table.contains_key(term) {
                n += 1;
            }
            i += 1;
        }
        assert(self.documents@.take(i as int) == self.documents@);
        n
    }
}

/// A document as it comes to indexing: its handle, and its text if the text
/// could be had.
pub struct Source {
    pub path: String,
    pub text: Option<String>,
}

/// The index of a list of sources: each source with a text is put in under
/// its handle, in turn; one without a text is passed over.
pub open spec fn indexed(sources: Seq<Source>) -> Map<Seq<char>, Table>
    decreases sources.len(),
{
    if sources.len() == 0 {
        Map::empty()
    } else {
        let front = indexed(sources.drop_last());
        match sources.last().text {
            Some(text) => front.insert(sources.last().path@, frequencies(tokens(text@))),
            None => front,
        }
    }
}

/// The handles of the index of a list of sources, in the order of the
/// index: that in which each handle first comes with a text.
pub open spec fn listed(sources: Seq<Source>) -> Seq<Seq<char>>
    decreases sources.len(),
{
    if sources.len() == 0 {
        Seq::empty()
    } else {
        let front = listed(sources.drop_last());
        match sources.last().text {
            Some(text) => with_path(front, sources.last().path@),
            None => front,
        }
    }
}

/// Builds the index of `sources` from nothing. A source without a text
/// leaves no trace and does not stop the others.
pub fn build_index(sources: &Vec<Source>) -> (index: TermFreqIndex)
    ensures
        index@ == indexed(sources@),
        paths_of(index.documents()) == listed(sources@),
        index.documents().len() <= sources@.len(),
{
    let mut index = TermFreqIndex::new();
    let mut i: usize = 0;
    while i < sources.len()
        invariant
            i <= sources@.len(),
            index@ == indexed(sources@.take(i as int)),
            paths_of(index.documents()) == listed(sources@.take(i as int)),
            index.documents().len() <= i,
        decreases sources@.len() - i,
    {
        assert(sources@.take(i + 1).drop_last() == sources@.take(i as int));
        match &sources[i].text {
            Some(text) => {
                let table = index_document(text.as_str());
                let ghost before = paths_of(index.documents());
                index.insert(sources[i].path.clone(), table);
                assert(paths_of(index.documents()).len() <= before.len() + 1);
            },
            None => {},
        }
        i += 1;
    }
    assert(sources@.take(i as int) == sources@);
    index
}

} // verus!
