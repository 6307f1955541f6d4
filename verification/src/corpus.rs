//! Corpus statistics: per-document term frequencies and the
//! corpus-wide document frequency.
//!
//! Term tables are association vectors from term to count, with each
//! key held by at most one entry. The aggregate's invariant ties the
//! document-frequency table to the per-document tables: a term's
//! document frequency is exactly the number of documents whose table
//! contains it.

use vstd::prelude::*;
use vstd::string::StringExecFns;
use crate::tokenizer::tokens_of;
use crate::tokenizer::views_of;

verus! {

/// The count stored for `key`, scanning entries from the most recent.
pub open spec fn lookup(t: Seq<(String, usize)>, key: Seq<char>) -> Option<usize>
    decreases t.len(),
{
    if t.len() == 0 {
        None
    } else if t.last().0@ == key {
        Some(t.last().1)
    } else {
        lookup(t.drop_last(), key)
    }
}

/// The stored count, or zero when the key is absent.
pub open spec fn count_of(t: Seq<(String, usize)>, key: Seq<char>) -> nat {
    match lookup(t, key) {
        Some(v) => v as nat,
        None => 0,
    }
}

/// Whether some entry of the table holds `key`.
pub open spec fn contains_key(t: Seq<(String, usize)>, key: Seq<char>) -> bool {
    lookup(t, key) is Some
}

/// Each key appears in at most one entry.
pub open spec fn keys_unique(t: Seq<(String, usize)>) -> bool {
    forall|i: int, j: int| 0 <= i < j < t.len() ==> t[i].0@ != t[j].0@
}

/// How many occurrences of `key` the token list holds.
pub open spec fn occurrences(tokens: Seq<Seq<char>>, key: Seq<char>) -> nat
    decreases tokens.len(),
{
    if tokens.len() == 0 {
        0
    } else {
        occurrences(tokens.drop_last(), key) + if tokens.last() == key {
            1nat
        } else {
            0nat
        }
    }
}

/// A per-document table records exactly the occurrence count of every
/// key of the token list, and nothing else.
pub open spec fn tf_table_matches(t: Seq<(String, usize)>, tokens: Seq<Seq<char>>) -> bool {
    &&& keys_unique(t)
    &&& forall|key: Seq<char>|
        #![trigger count_of(t, key)]
        #![trigger occurrences(tokens, key)]
        count_of(t, key) == occurrences(tokens, key)
    &&& forall|key: Seq<char>|
        #![trigger contains_key(t, key)]
        #![trigger occurrences(tokens, key)]
        contains_key(t, key) <==> occurrences(tokens, key) > 0
}

/// In how many of the documents `key` occurs.
pub open spec fn doc_count(docs: Seq<Vec<(String, usize)>>, key: Seq<char>) -> nat
    decreases docs.len(),
{
    if docs.len() == 0 {
        0
    } else {
        doc_count(docs.drop_last(), key) + if contains_key(docs.last()@, key) {
            1nat
        } else {
            0nat
        }
    }
}

/// A key is absent exactly when no entry holds it.
proof fn lemma_lookup_none_iff(t: Seq<(String, usize)>, key: Seq<char>)
    ensures
        lookup(t, key) is None <==> (forall|i: int| 0 <= i < t.len() ==> t[i].0@ != key),
    decreases t.len(),
{
    if t.len() > 0 {
        lemma_lookup_none_iff(t.drop_last(), key);
        assert(forall|i: int|
            0 <= i < t.drop_last().len() ==> t.drop_last()[i] == t[i]);
        assert(t.last() == t[t.len() - 1]);
    }
}

/// Replacing the one entry that holds a key changes that key's count
/// and no other.
proof fn lemma_lookup_update(t: Seq<(String, usize)>, j: int, p: (String, usize))
    requires
        0 <= j < t.len(),
        t[j].0@ == p.0@,
        forall|i: int| 0 <= i < t.len() && i != j ==> t[i].0@ != p.0@,
    ensures
        lookup(t.update(j, p), p.0@) == Some(p.1),
        forall|k: Seq<char>| k != p.0@ ==> lookup(t.update(j, p), k) == lookup(t, k),
    decreases t.len(),
{
    let u = t.update(j, p);
    if j == t.len() - 1 {
        assert(u.last() == p);
        assert(u.drop_last() =~= t.drop_last());
        assert(t.last() == t[j]);
        assert forall|k: Seq<char>| k != p.0@ implies lookup(u, k) == lookup(t, k) by {
            assert(lookup(u, k) == lookup(u.drop_last(), k));
            assert(lookup(t, k) == lookup(t.drop_last(), k));
        }
    } else {
        assert(u.last() == t.last());
        assert(t.last() == t[t.len() - 1]);
        assert(t.last().0@ != p.0@);
        assert(u.drop_last() =~= t.drop_last().update(j, p));
        assert(t.drop_last()[j] == t[j]);
        assert(forall|i: int|
            0 <= i < t.drop_last().len() && i != j ==> t.drop_last()[i].0@ != p.0@);
        lemma_lookup_update(t.drop_last(), j, p);
        assert forall|k: Seq<char>| k != p.0@ implies lookup(u, k) == lookup(t, k) by {
            if t.last().0@ == k {
                assert(lookup(u, k) == Some(u.last().1));
                assert(lookup(t, k) == Some(t.last().1));
            } else {
                assert(lookup(u, k) == lookup(u.drop_last(), k));
                assert(lookup(t, k) == lookup(t.drop_last(), k));
            }
        }
    }
}

/// A term occurs in at most every document.
proof fn lemma_doc_count_le(docs: Seq<Vec<(String, usize)>>, key: Seq<char>)
    ensures
        doc_count(docs, key) <= docs.len(),
    decreases docs.len(),
{
    if docs.len() > 0 {
        lemma_doc_count_le(docs.drop_last(), key);
    }
}

/// A term occurs at most once per token.
proof fn lemma_occurrences_le(tokens: Seq<Seq<char>>, key: Seq<char>)
    ensures
        occurrences(tokens, key) <= tokens.len(),
    decreases tokens.len(),
{
    if tokens.len() > 0 {
        lemma_occurrences_le(tokens.drop_last(), key);
    }
}

/// Extending the scanned prefix by one token adds one occurrence of
/// exactly that token.
proof fn lemma_occurrences_take_step(v: Seq<Seq<char>>, i: int)
    requires
        0 <= i < v.len(),
    ensures
        forall|key: Seq<char>|
            #![trigger occurrences(v.take(i + 1), key)]
            occurrences(v.take(i + 1), key) == occurrences(v.take(i), key) + (if v[i] == key {
                1int
            } else {
                0int
            }),
{
    assert(v.take(i + 1).drop_last() =~= v.take(i));
    assert(v.take(i + 1).last() == v[i]);
    assert forall|key: Seq<char>|
        occurrences(v.take(i + 1), key) == occurrences(v.take(i), key) + (if v[i] == key {
            1int
        } else {
            0int
        }) by {
        assert(occurrences(v.take(i + 1), key) == occurrences(v.take(i + 1).drop_last(), key) + (
        if v.take(i + 1).last() == key {
            1nat
        } else {
            0nat
        }));
    }
}

/// Extending the scanned prefix of a table by one entry adds exactly
/// that entry's key.
proof fn lemma_contains_take_step(t: Seq<(String, usize)>, j: int)
    requires
        0 <= j < t.len(),
    ensures
        forall|k: Seq<char>|
            #![trigger contains_key(t.take(j + 1), k)]
            contains_key(t.take(j + 1), k) <==> (contains_key(t.take(j), k) || t[j].0@ == k),
{
    assert(t.take(j + 1).drop_last() =~= t.take(j));
    assert(t.take(j + 1).last() == t[j]);
    assert forall|k: Seq<char>|
        contains_key(t.take(j + 1), k) <==> (contains_key(t.take(j), k) || t[j].0@ == k) by {
        assert(lookup(t.take(j + 1), k) == if t[j].0@ == k {
            Some(t[j].1)
        } else {
            lookup(t.take(j), k)
        });
    }
}

/// Appending a document's table raises the document count of exactly
/// the keys it contains.
proof fn lemma_doc_count_push(docs: Seq<Vec<(String, usize)>>, d: Vec<(String, usize)>)
    ensures
        forall|k: Seq<char>|
            #![trigger doc_count(docs.push(d), k)]
            doc_count(docs.push(d), k) == doc_count(docs, k) + (if contains_key(d@, k) {
                1int
            } else {
                0int
            }),
{
    assert(docs.push(d).drop_last() =~= docs);
    assert(docs.push(d).last() == d);
    assert forall|k: Seq<char>|
        doc_count(docs.push(d), k) == doc_count(docs, k) + (if contains_key(d@, k) {
            1int
        } else {
            0int
        }) by {
        assert(doc_count(docs.push(d), k) == doc_count(docs.push(d).drop_last(), k) + (
        if contains_key(docs.push(d).last()@, k) {
            1nat
        } else {
            0nat
        }));
    }
}

/// With unique keys, looking an entry's key up finds that entry.
proof fn lemma_lookup_at_index(t: Seq<(String, usize)>, i: int)
    requires
        0 <= i < t.len(),
        forall|j: int| 0 <= j < t.len() && j != i ==> t[j].0@ != t[i].0@,
    ensures
        lookup(t, t[i].0@) == Some(t[i].1),
    decreases t.len(),
{
    if i == t.len() - 1 {
        assert(t.last() == t[i]);
    } else {
        assert(t.last() == t[t.len() - 1]);
        assert(t.drop_last()[i] == t[i]);
        assert(forall|j: int|
            0 <= j < t.drop_last().len() && j != i ==> t.drop_last()[j].0@ != t.drop_last()[i].0@);
        lemma_lookup_at_index(t.drop_last(), i);
    }
}

/// A term contained in some document is counted at least once.
proof fn lemma_doc_count_at(docs: Seq<Vec<(String, usize)>>, d: int, key: Seq<char>)
    requires
        0 <= d < docs.len(),
        contains_key(docs[d]@, key),
    ensures
        doc_count(docs, key) >= 1,
    decreases docs.len(),
{
    if d == docs.len() - 1 {
        assert(docs.last() == docs[d]);
    } else {
        assert(docs.drop_last()[d] == docs[d]);
        lemma_doc_count_at(docs.drop_last(), d, key);
    }
}

/// Returns the index of the entry that holds `key`, if any.
fn find_key(t: &Vec<(String, usize)>, key: &String) -> (r: Option<usize>)
    ensures
        match r {
            Some(j) => j < t@.len() && t@[j as int].0@ == key@ && lookup(t@, key@) == Some(
                t@[j as int].1,
            ),
            None => lookup(t@, key@) is None,
        },
{
    let mut j: usize = t.len();
    proof {
        assert(t@.take(t@.len() as int) =~= t@);
    }
    while j > 0
        invariant
            j <= t@.len(),
            lookup(t@, key@) == lookup(t@.take(j as int), key@),
        decreases j,
    {
        j = j - 1;
        proof {
            assert(t@.take(j + 1).drop_last() =~= t@.take(j as int));
            assert(t@.take(j + 1).last() == t@[j as int]);
        }
        if t[j].0 == *key {
            return Some(j);
        }
    }
    proof {
        assert(t@.take(0) =~= Seq::<(String, usize)>::empty());
    }
    None
}

/// Adds one to the count stored for `key`, creating the entry at one.
fn bump_key(t: &mut Vec<(String, usize)>, key: &String)
    requires
        keys_unique(old(t)@),
        count_of(old(t)@, key@) < usize::MAX,
    ensures
        keys_unique(final(t)@),
        count_of(final(t)@, key@) == count_of(old(t)@, key@) + 1,
        contains_key(final(t)@, key@),
        forall|k: Seq<char>| k != key@ ==> lookup(final(t)@, k) == lookup(old(t)@, k),
{
    match find_key(t, key) {
        Some(j) => {
            let c = t[j].1;
            let k2 = t[j].0.clone();
            t[j] = (k2, c + 1);
            proof {
                lemma_lookup_update(old(t)@, j as int, (k2, (c + 1) as usize));
                assert(forall|i: int|
                    0 <= i < t@.len() ==> t@[i].0@ == old(t)@[i].0@);
            }
        },
        None => {
            let k2 = key.clone();
            t.push((k2, 1));
            proof {
                lemma_lookup_none_iff(old(t)@, key@);
                assert(t@.drop_last() =~= old(t)@);
                assert(t@.last() == (k2, 1usize));
                assert(forall|i: int| 0 <= i < old(t)@.len() ==> t@[i] == old(t)@[i]);
            }
        },
    }
}

/// One document's score inputs correspond entry-by-entry to its
/// term-frequency table, each entry carrying the term, its count in
/// the document, and its corpus-wide document frequency.
pub open spec fn score_table_matches(
    out: Seq<(String, usize, usize)>,
    tf: Seq<(String, usize)>,
    df: Seq<(String, usize)>,
    n_docs: int,
) -> bool {
    &&& out.len() == tf.len()
    &&& forall|i: int|
        0 <= i < out.len() ==> {
            &&& (#[trigger] out[i]).0@ == tf[i].0@
            &&& out[i].1 == tf[i].1
            &&& lookup(df, tf[i].0@) == Some(out[i].2)
            &&& 1 <= out[i].2 <= n_docs
        }
}

/// The aggregate corpus statistics, built by ingesting one document
/// at a time and read once the corpus is closed.
pub struct TfidfCalculator {
    /// For each term, in how many documents it occurs at least once.
    pub document_frequency: Vec<(String, usize)>,
    /// One term-to-count table per document, in ingestion order.
    pub term_frequencies: Vec<Vec<(String, usize)>>,
    /// How many documents have been ingested.
    pub n_documents: usize,
}

impl TfidfCalculator {
    /// The aggregate's invariant: one table per document, unique keys
    /// everywhere, and for every term the document-frequency table
    /// stores exactly the number of per-document tables containing it.
    pub open spec fn well_formed(self) -> bool {
        &&& self.n_documents == self.term_frequencies@.len()
        &&& keys_unique(self.document_frequency@)
        &&& forall|d: int|
            0 <= d < self.term_frequencies@.len() ==> keys_unique(
                #[trigger] self.term_frequencies@[d]@,
            )
        &&& forall|key: Seq<char>|
            #![trigger count_of(self.document_frequency@, key)]
            #![trigger doc_count(self.term_frequencies@, key)]
            count_of(self.document_frequency@, key) == doc_count(self.term_frequencies@, key)
        &&& forall|key: Seq<char>|
            #![trigger contains_key(self.document_frequency@, key)]
            contains_key(self.document_frequency@, key) <==> doc_count(
                self.term_frequencies@,
                key,
            ) > 0
    }

    /// Creates an empty corpus: no documents, no terms.
    pub fn new() -> (r: TfidfCalculator)
        ensures
            r.well_formed(),
            r.n_documents == 0,
            r.term_frequencies@.len() == 0,
            r.document_frequency@.len() == 0,
    {
        TfidfCalculator {
            document_frequency: Vec::new(),
            term_frequencies: Vec::new(),
            n_documents: 0,
        }
    }

    /// Splits `text` into normalized terms.
    pub fn tokenize(text: &str) -> (r: Vec<String>)
        ensures
            views_of(r@) == tokens_of(text@),
            forall|i: int|
                0 <= i < r@.len() ==> crate::tokenizer::normalized_term(r@[i]@),
    {
        crate::tokenizer::tokenize(text)
    }

    /// Ingests one document: tokenizes `text`, appends the document's
    /// term-frequency table, and raises the document frequency of each
    /// distinct term of the document by exactly one.
    pub fn process_document(&mut self, text: &str)
        requires
            old(self).well_formed(),
            old(self).n_documents < usize::MAX,
        ensures
            final(self).well_formed(),
            final(self).n_documents == old(self).n_documents + 1,
            final(self).term_frequencies@.len() == old(self).term_frequencies@.len() + 1,
            final(self).term_frequencies@.drop_last() == old(self).term_frequencies@,
            tf_table_matches(final(self).term_frequencies@.last()@, tokens_of(text@)),
            forall|key: Seq<char>|
                #![trigger count_of(final(self).document_frequency@, key)]
                count_of(final(self).document_frequency@, key) == count_of(
                    old(self).document_frequency@,
                    key,
                ) + (if occurrences(tokens_of(text@), key) > 0 {
                    1int
                } else {
                    0int
                }),
    {
        let tokens = crate::tokenizer::tokenize(text);
        let ghost tv = views_of(tokens@);
        let mut table: Vec<(String, usize)> = Vec::new();
        let mut i: usize = 0;
        proof {
            assert(tv.take(0) =~= Seq::<Seq<char>>::empty());
        }
        while i < tokens.len()
            invariant
                tv == tokens_of(text@),
                tv == views_of(tokens@),
                i <= tokens@.len(),
                tokens@.len() == tv.len(),
                tf_table_matches(table@, tv.take(i as int)),
            decreases tokens@.len() - i,
        {
            proof {
                lemma_occurrences_take_step(tv, i as int);
                lemma_occurrences_le(tv.take(i as int), tokens@[i as int]@);
                assert(tv[i as int] == tokens@[i as int]@);
            }
            bump_key(&mut table, &tokens[i]);
            i += 1;
        }
        proof {
            assert(tv.take(tv.len() as int) =~= tv);
        }
        let ghost df0 = self.document_frequency@;
        let mut j: usize = 0;
        proof {
            assert(table@.take(0) =~= Seq::<(String, usize)>::empty());
        }
        while j < table.len()
            invariant
                old(self).well_formed(),
                old(self).n_documents < usize::MAX,
                tf_table_matches(table@, tokens_of(text@)),
                j <= table@.len(),
                df0 == old(self).document_frequency@,
                self.term_frequencies == old(self).term_frequencies,
                self.n_documents == old(self).n_documents,
                keys_unique(self.document_frequency@),
                forall|key: Seq<char>|
                    #![trigger count_of(self.document_frequency@, key)]
                    count_of(self.document_frequency@, key) == count_of(df0, key) + (
                    if contains_key(table@.take(j as int), key) {
                        1int
                    } else {
                        0int
                    }),
                forall|key: Seq<char>|
                    #![trigger contains_key(self.document_frequency@, key)]
                    contains_key(self.document_frequency@, key) <==> (contains_key(df0, key)
                        || contains_key(table@.take(j as int), key)),
            decreases table@.len() - j,
        {
            proof {
                lemma_contains_take_step(table@, j as int);
                lemma_doc_count_le(self.term_frequencies@, table@[j as int].0@);
                assert(!contains_key(table@.take(j as int), table@[j as int].0@)) by {
                    lemma_lookup_none_iff(table@.take(j as int), table@[j as int].0@);
                    assert(forall|i: int|
                        0 <= i < j ==> table@.take(j as int)[i] == table@[i]);
                }
                assert(count_of(self.document_frequency@, table@[j as int].0@) == count_of(
                    df0,
                    table@[j as int].0@,
                ));
            }
            let ghost dfb = self.document_frequency@;
            let ghost bumped = table@[j as int].0@;
            bump_key(&mut self.document_frequency, &table[j].0);
            proof {
                assert forall|key: Seq<char>|
                    count_of(self.document_frequency@, key) == count_of(df0, key) + (
                    if contains_key(table@.take(j + 1), key) {
                        1int
                    } else {
                        0int
                    }) by {
                    assert(contains_key(table@.take(j + 1), key) <==> (contains_key(
                        table@.take(j as int),
                        key,
                    ) || table@[j as int].0@ == key));
                    if key != bumped {
                        assert(lookup(self.document_frequency@, key) == lookup(dfb, key));
                        assert(count_of(dfb, key) == count_of(df0, key) + (if contains_key(
                            table@.take(j as int),
                            key,
                        ) {
                            1int
                        } else {
                            0int
                        }));
                    }
                }
                assert forall|key: Seq<char>| #![trigger contains_key(self.document_frequency@, key)]
                    contains_key(self.document_frequency@, key) <==> (contains_key(df0, key)
                        || contains_key(table@.take(j + 1), key)) by {
                    assert(contains_key(table@.take(j + 1), key) <==> (contains_key(
                        table@.take(j as int),
                        key,
                    ) || table@[j as int].0@ == key));
                    if key != bumped {
                        assert(lookup(self.document_frequency@, key) == lookup(dfb, key));
                        assert(contains_key(dfb, key) <==> (contains_key(df0, key)
                            || contains_key(table@.take(j as int), key)));
                    }
                }
            }
            j += 1;
        }
        proof {
            assert(table@.take(table@.len() as int) =~= table@);
            lemma_doc_count_push(self.term_frequencies@, table);
        }
        self.term_frequencies.push(table);
        self.n_documents = self.n_documents + 1;
        proof {
            assert(final(self).term_frequencies@.drop_last() =~= old(self).term_frequencies@);
            assert(final(self).term_frequencies@.last() == table);
            assert forall|d: int|
                0 <= d < final(self).term_frequencies@.len() implies keys_unique(
                #[trigger] final(self).term_frequencies@[d]@,
            ) by {
                if d < old(self).term_frequencies@.len() {
                    assert(final(self).term_frequencies@[d]
                        == old(self).term_frequencies@[d]);
                } else {
                    assert(final(self).term_frequencies@[d] == table);
                }
            }
        }
    }

    /// Derives the score inputs of every document once the corpus is
    /// closed: for each document, one entry per term of its table,
    /// carrying the term's in-document count and its corpus-wide
    /// document frequency. The document frequency of a term present
    /// in a document is at least one and at most the number of
    /// documents, so the score `count * ln(n_documents / df)` the
    /// caller derives from an entry is well defined and non-negative.
    pub fn calculate_tfidf(&self) -> (r: Vec<Vec<(String, usize, usize)>>)
        requires
            self.well_formed(),
        ensures
            r@.len() == self.n_documents,
            forall|d: int|
                0 <= d < r@.len() ==> score_table_matches(
                    #[trigger] r@[d]@,
                    self.term_frequencies@[d]@,
                    self.document_frequency@,
                    self.n_documents as int,
                ),
    {
        let mut r: Vec<Vec<(String, usize, usize)>> = Vec::new();
        let mut d: usize = 0;
        while d < self.term_frequencies.len()
            invariant
                self.well_formed(),
                d <= self.term_frequencies@.len(),
                r@.len() == d,
                forall|e: int|
                    0 <= e < d ==> score_table_matches(
                        #[trigger] r@[e]@,
                        self.term_frequencies@[e]@,
                        self.document_frequency@,
                        self.n_documents as int,
                    ),
            decreases self.term_frequencies@.len() - d,
        {
            let tf = &self.term_frequencies[d];
            let mut out: Vec<(String, usize, usize)> = Vec::new();
            let mut i: usize = 0;
            while i < tf.len()
                invariant
                    self.well_formed(),
                    d < self.term_frequencies@.len(),
                    tf == self.term_frequencies@[d as int],
                    i <= tf@.len(),
                    out@.len() == i,
                    forall|e: int|
                        0 <= e < i ==> {
                            &&& (#[trigger] out@[e]).0@ == tf@[e].0@
                            &&& out@[e].1 == tf@[e].1
                            &&& lookup(self.document_frequency@, tf@[e].0@) == Some(out@[e].2)
                            &&& 1 <= out@[e].2 <= self.n_documents
                        },
                decreases tf@.len() - i,
            {
                let term = tf[i].0.clone();
                let freq = tf[i].1;
                proof {
                    lemma_lookup_at_index(tf@, i as int);
                    lemma_doc_count_at(self.term_frequencies@, d as int, term@);
                    lemma_doc_count_le(self.term_frequencies@, term@);
                }
                let j = match find_key(&self.document_frequency, &term) {
                    Some(j) => j,
                    None => {
                        proof {
                            assert(false);
                        }
                        0
                    },
                };
                let dfv = self.document_frequency[j].1;
                out.push((term, freq, dfv));
                i += 1;
            }
            r.push(out);
            d += 1;
        }
        r
    }

    /// Ingests a whole input, chunked `lines_per_doc` lines at a
    /// time: every full window of lines forms one document, and a
    /// non-empty remainder forms one last, shorter document. The
    /// lines of a document are joined with a newline separator
    /// before tokenization.
    pub fn process_lines(&mut self, lines: &Vec<String>, lines_per_doc: usize)
        requires
            lines_per_doc >= 1,
            old(self).well_formed(),
            old(self).n_documents + document_tally(lines@.len(), lines_per_doc as nat)
                <= usize::MAX,
        ensures
            final(self).well_formed(),
            final(self).n_documents == old(self).n_documents + document_tally(
                lines@.len(),
                lines_per_doc as nat,
            ),
            final(self).term_frequencies@.take(old(self).term_frequencies@.len() as int) == old(
                self,
            ).term_frequencies@,
            forall|j: int|
                0 <= j < document_tally(lines@.len(), lines_per_doc as nat)
                    ==> #[trigger] ingested_chunk_matches(
                    *final(self),
                    lines@,
                    old(self).term_frequencies@.len() as int,
                    j,
                    lines_per_doc,
                ),
    {
        let ghost base = old(self).term_frequencies@.len() as int;
        let ghost n = lines_per_doc as int;
        let ghost total = document_tally(lines@.len(), lines_per_doc as nat);
        let mut start: usize = 0;
        let ghost mut dcount: int = 0;
        proof {
            assert(self.term_frequencies@.take(base) =~= self.term_frequencies@);
        }
        while start < lines.len()
            invariant
                lines_per_doc >= 1,
                self.well_formed(),
                start <= lines@.len(),
                0 <= dcount,
                start as int == dcount * n || start as int == lines@.len(),
                n == lines_per_doc as int,
                total == document_tally(lines@.len(), lines_per_doc as nat),
                dcount + document_tally((lines@.len() - start) as nat, lines_per_doc as nat)
                    == total,
                old(self).n_documents + total <= usize::MAX,
                self.n_documents == old(self).n_documents + dcount,
                self.term_frequencies@.len() == base + dcount,
                self.term_frequencies@.take(base) == old(self).term_frequencies@,
                forall|j: int|
                    0 <= j < dcount ==> #[trigger] ingested_chunk_matches(
                        *self,
                        lines@,
                        base,
                        j,
                        lines_per_doc,
                    ),
            decreases lines@.len() - start,
        {
            let remaining = lines.len() - start;
            let end = if lines_per_doc < remaining {
                start + lines_per_doc
            } else {
                lines.len()
            };
            let mut text = String::new();
            let mut i = start;
            while i < end
                invariant
                    start <= i <= end <= lines@.len(),
                    text@ == chunk_text(lines@, start as int, i as int),
                decreases end - i,
            {
                text.append(lines[i].as_str());
                text.append("\n");
                proof {
                    reveal_strlit("\n");
                    assert(("\n")@ =~= seq!['\n']);
                    assert(text@ == chunk_text(lines@, start as int, i + 1));
                }
                i += 1;
            }
            proof {
                assert(document_tally((lines@.len() - start) as nat, lines_per_doc as nat) >= 1);
            }
            let ghost pre = *self;
            self.process_document(text.as_str());
            proof {
                assert(start as int == dcount * n);
                assert((dcount + 1) * n == dcount * n + n) by (nonlinear_arith);
                assert(text@ == chunk_of(lines@, dcount, n));
                assert(self.term_frequencies@.last() == self.term_frequencies@[base + dcount]);
                assert(ingested_chunk_matches(*self, lines@, base, dcount, lines_per_doc));
                assert forall|j: int|
                    0 <= j < dcount + 1 implies #[trigger] ingested_chunk_matches(
                    *self,
                    lines@,
                    base,
                    j,
                    lines_per_doc,
                ) by {
                    if j < dcount {
                        assert(self.term_frequencies@.drop_last()[base + j]
                            == pre.term_frequencies@[base + j]);
                        assert(ingested_chunk_matches(pre, lines@, base, j, lines_per_doc));
                    }
                }
                assert(self.term_frequencies@.take(base) =~= pre.term_frequencies@.take(base));
                assert(document_tally((lines@.len() - start) as nat, lines_per_doc as nat) == 1
                    + document_tally((lines@.len() - end) as nat, lines_per_doc as nat));
            }
            start = end;
            proof {
                dcount = dcount + 1;
            }
        }
        proof {
            assert(document_tally((lines@.len() - start) as nat, lines_per_doc as nat) == 0);
        }
    }

    /// How many documents have been ingested.
    pub fn document_count(&self) -> (r: usize)
        ensures
            r == self.n_documents,
    {
        self.n_documents
    }

    /// How many distinct terms the whole corpus holds.
    pub fn distinct_term_count(&self) -> (r: usize)
        ensures
            r == self.document_frequency@.len(),
    {
        self.document_frequency.len()
    }

    /// The number of documents containing `term`, if it was ever seen.
    pub fn document_frequency_of(&self, term: &String) -> (r: Option<usize>)
        ensures
            r == lookup(self.document_frequency@, term@),
    {
        match find_key(&self.document_frequency, term) {
            Some(j) => Some(self.document_frequency[j].1),
            None => None,
        }
    }

    /// The number of occurrences of `term` in document `doc`
    /// (zero-based), if the term appears there.
    pub fn term_count_in_document(&self, doc: usize, term: &String) -> (r: Option<usize>)
        requires
            doc < self.term_frequencies@.len(),
        ensures
            r == lookup(self.term_frequencies@[doc as int]@, term@),
    {
        match find_key(&self.term_frequencies[doc], term) {
            Some(j) => Some(self.term_frequencies[doc][j].1),
            None => None,
        }
    }
}

/// The line range a document's report header states: documents are
/// reported over full windows of `lines_per_doc` source lines
/// (one-based, inclusive), even when the last document is shorter.
pub fn document_line_range(doc_index: usize, lines_per_doc: usize) -> (r: (usize, usize))
    requires
        lines_per_doc >= 1,
        (doc_index + 1) * (lines_per_doc as int) <= usize::MAX,
    ensures
        r.0 == doc_index * (lines_per_doc as int) + 1,
        r.1 == (doc_index + 1) * (lines_per_doc as int),
{
    proof {
        assert((doc_index + 1) * (lines_per_doc as int) == doc_index * (lines_per_doc as int)
            + lines_per_doc) by (nonlinear_arith);
        assert(doc_index * (lines_per_doc as int) >= 0) by (nonlinear_arith);
        assert(lines_per_doc >= 1 ==> doc_index + 1 <= (doc_index + 1) * (lines_per_doc as int))
            by (nonlinear_arith);
    }
    let end = (doc_index + 1) * lines_per_doc;
    let start = doc_index * lines_per_doc + 1;
    (start, end)
}

/// The text of the document covering `lines[from..to]`: those lines
/// concatenated, each followed by a newline.
pub open spec fn chunk_text(lines: Seq<String>, from: int, to: int) -> Seq<char>
    decreases to - from,
{
    if from >= to {
        Seq::empty()
    } else {
        chunk_text(lines, from, to - 1) + lines[to - 1]@ + seq!['\n']
    }
}

/// The text of document number `j` (zero-based) when the lines are
/// chunked `n` at a time: a full window of `n` lines, or whatever is
/// left at the end.
pub open spec fn chunk_of(lines: Seq<String>, j: int, n: int) -> Seq<char> {
    chunk_text(
        lines,
        j * n,
        if (j + 1) * n <= lines.len() { (j + 1) * n } else { lines.len() as int },
    )
}

/// How many documents `len` lines yield when chunked `n` at a time:
/// one per full window, plus one for a non-empty remainder.
pub open spec fn document_tally(len: nat, n: nat) -> nat
    decreases len,
{
    if len == 0 || n == 0 {
        0
    } else if len <= n {
        1
    } else {
        1 + document_tally((len - n) as nat, n)
    }
}

/// Document number `base + j` of the calculator holds exactly the
/// term frequencies of chunk number `j` of the lines.
pub open spec fn ingested_chunk_matches(
    cal: TfidfCalculator,
    lines: Seq<String>,
    base: int,
    j: int,
    n: usize,
) -> bool {
    tf_table_matches(cal.term_frequencies@[base + j]@, tokens_of(chunk_of(lines, j, n as int)))
}

/// The defining relation of the document-frequency table: for every
/// term, its recorded document frequency is exactly the number of
/// documents whose table contains it.
pub proof fn lemma_document_frequency_counts_documents(cal: TfidfCalculator, term: Seq<char>)
    requires
        cal.well_formed(),
    ensures
        count_of(cal.document_frequency@, term) == doc_count(cal.term_frequencies@, term),
        contains_key(cal.document_frequency@, term) <==> doc_count(cal.term_frequencies@, term)
            > 0,
{
}

} // verus!
