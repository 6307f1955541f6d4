//! Ranking a document's terms: the top `k` entries by score key.
//!
//! An entry pairs a term with an unsigned score key supplied by the
//! caller, whose order must agree with the order of the scores it
//! stands for. Sorting is stable: entries with equal keys keep their
//! input order, which makes the ranking deterministic.

use vstd::prelude::*;
use vstd::multiset::Multiset;
use vstd::seq_lib::group_to_multiset_ensures;
use vstd::seq_lib::lemma_multiset_commutative;

verus! {

broadcast use
    group_to_multiset_ensures,
    vstd::multiset::group_multiset_axioms,
    vstd::multiset::lemma_multiset_empty_len,
;

/// `x` placed into the descending-ordered `s`: after every entry
/// whose key is at least as large, before the rest.
pub open spec fn insert_desc(x: (String, u64), s: Seq<(String, u64)>) -> Seq<(String, u64)>
    decreases s.len(),
{
    if s.len() == 0 {
        seq![x]
    } else if x.1 > s[0].1 {
        seq![x] + s
    } else {
        seq![s[0]] + insert_desc(x, s.drop_first())
    }
}

/// The entries sorted by key, largest first; entries with equal keys
/// keep their original relative order.
pub open spec fn sort_desc(s: Seq<(String, u64)>) -> Seq<(String, u64)>
    decreases s.len(),
{
    if s.len() == 0 {
        Seq::empty()
    } else {
        insert_desc(s.last(), sort_desc(s.drop_last()))
    }
}

/// Keys never increase along the sequence.
pub open spec fn sorted_desc(s: Seq<(String, u64)>) -> bool {
    forall|i: int, j: int| 0 <= i < j < s.len() ==> s[i].1 >= s[j].1
}

proof fn lemma_insert_desc_len(x: (String, u64), s: Seq<(String, u64)>)
    ensures
        insert_desc(x, s).len() == s.len() + 1,
    decreases s.len(),
{
    if s.len() != 0 && !(x.1 > s[0].1) {
        lemma_insert_desc_len(x, s.drop_first());
    }
}

/// Inserting adds exactly the new entry to the contents.
proof fn lemma_insert_desc_multiset(x: (String, u64), s: Seq<(String, u64)>)
    ensures
        insert_desc(x, s).to_multiset() =~= s.to_multiset().insert(x),
    decreases s.len(),
{
    let e = Seq::<(String, u64)>::empty();
    if s.len() == 0 {
        assert(seq![x] =~= e.push(x));
        assert(e.push(x).to_multiset() =~= e.to_multiset().insert(x));
        assert(s =~= e);
    } else if x.1 > s[0].1 {
        lemma_multiset_commutative(seq![x], s);
        assert(seq![x] =~= e.push(x));
        assert(e.push(x).to_multiset() =~= e.to_multiset().insert(x));
        assert(e.to_multiset().len() == 0);
        assert(e.to_multiset() =~= Multiset::<(String, u64)>::empty());
    } else {
        lemma_insert_desc_multiset(x, s.drop_first());
        lemma_multiset_commutative(seq![s[0]], insert_desc(x, s.drop_first()));
        assert(seq![s[0]] =~= e.push(s[0]));
        assert(e.push(s[0]).to_multiset() =~= e.to_multiset().insert(s[0]));
        assert(e.to_multiset().len() == 0);
        assert(e.to_multiset() =~= Multiset::<(String, u64)>::empty());
        assert(s =~= seq![s[0]] + s.drop_first());
        lemma_multiset_commutative(seq![s[0]], s.drop_first());
    }
}

/// Inserting into a descending sequence keeps it descending.
proof fn lemma_insert_desc_sorted(x: (String, u64), s: Seq<(String, u64)>)
    requires
        sorted_desc(s),
    ensures
        sorted_desc(insert_desc(x, s)),
    decreases s.len(),
{
    let r = insert_desc(x, s);
    if s.len() == 0 {
    } else if x.1 > s[0].1 {
        assert forall|i: int, j: int| 0 <= i < j < r.len() implies r[i].1 >= r[j].1 by {
            if i > 0 {
                assert(r[i] == s[i - 1]);
                assert(r[j] == s[j - 1]);
            } else {
                assert(r[j] == s[j - 1]);
                if j > 1 {
                    assert(s[0].1 >= s[j - 1].1);
                }
            }
        }
    } else {
        let rest = s.drop_first();
        assert(forall|i: int| 0 <= i < rest.len() ==> rest[i] == s[i + 1]);
        lemma_insert_desc_sorted(x, rest);
        lemma_insert_desc_multiset(x, rest);
        let ri = insert_desc(x, rest);
        assert forall|j: int| 0 <= j < ri.len() implies s[0].1 >= ri[j].1 by {
            assert(ri.contains(ri[j]));
            assert(ri.to_multiset().count(ri[j]) > 0);
            if ri[j] != x {
                assert(rest.to_multiset().count(ri[j]) > 0);
                assert(rest.contains(ri[j]));
                let w = choose|w: int| 0 <= w < rest.len() && rest[w] == ri[j];
                assert(s[0].1 >= s[w + 1].1);
            }
        }
        assert forall|i: int, j: int| 0 <= i < j < r.len() implies r[i].1 >= r[j].1 by {
            assert(r[j] == ri[j - 1]);
            if i > 0 {
                assert(r[i] == ri[i - 1]);
            }
        }
    }
}

/// What sorting guarantees: same length, same contents, keys in
/// non-increasing order.
pub proof fn lemma_sort_desc_ensures(s: Seq<(String, u64)>)
    ensures
        sort_desc(s).len() == s.len(),
        sorted_desc(sort_desc(s)),
        sort_desc(s).to_multiset() =~= s.to_multiset(),
    decreases s.len(),
{
    if s.len() == 0 {
        assert(s =~= Seq::<(String, u64)>::empty());
    } else {
        lemma_sort_desc_ensures(s.drop_last());
        lemma_insert_desc_len(s.last(), sort_desc(s.drop_last()));
        lemma_insert_desc_sorted(s.last(), sort_desc(s.drop_last()));
        lemma_insert_desc_multiset(s.last(), sort_desc(s.drop_last()));
        assert(s =~= s.drop_last().push(s.last()));
        assert(s.drop_last().push(s.last()).to_multiset() =~= s.drop_last().to_multiset().insert(
            s.last(),
        ));
    }
}

/// Where the scan of a descending sequence stops is where the spec
/// insertion places the new entry.
proof fn lemma_insert_desc_at(x: (String, u64), s: Seq<(String, u64)>, p: int)
    requires
        sorted_desc(s),
        0 <= p <= s.len(),
        forall|i: int| 0 <= i < p ==> s[i].1 >= x.1,
        p == s.len() || s[p].1 < x.1,
    ensures
        insert_desc(x, s) == s.take(p) + seq![x] + s.skip(p),
    decreases p,
{
    if p == 0 {
        if s.len() == 0 {
            assert(s.take(0) + seq![x] + s.skip(0) =~= seq![x]);
        } else {
            assert(x.1 > s[0].1);
            assert(s.take(0) + seq![x] + s.skip(0) =~= seq![x] + s);
        }
    } else {
        assert(s[0].1 >= x.1);
        let rest = s.drop_first();
        assert(forall|i: int| 0 <= i < rest.len() ==> rest[i] == s[i + 1]);
        lemma_insert_desc_at(x, rest, p - 1);
        assert(seq![s[0]] + (rest.take(p - 1) + seq![x] + rest.skip(p - 1)) =~= s.take(p)
            + seq![x] + s.skip(p));
    }
}

/// The `k` highest-scoring entries, largest key first: the input
/// sorted by key in non-increasing order (entries with equal keys
/// keeping their input order) and cut off after `k` entries.
pub fn top_k(scores: &Vec<(String, u64)>, k: usize) -> (r: Vec<(String, u64)>)
    ensures
        r@ == sort_desc(scores@).take(
            if k <= scores@.len() {
                k as int
            } else {
                scores@.len() as int
            },
        ),
        r@.len() == if k <= scores@.len() {
            k as int
        } else {
            scores@.len() as int
        },
        sorted_desc(r@),
{
    let mut sorted: Vec<(String, u64)> = Vec::new();
    let mut i: usize = 0;
    proof {
        assert(scores@.take(0) =~= Seq::<(String, u64)>::empty());
    }
    while i < scores.len()
        invariant
            i <= scores@.len(),
            sorted@ == sort_desc(scores@.take(i as int)),
            sorted_desc(sorted@),
            sorted@.len() == i,
        decreases scores@.len() - i,
    {
        let term = scores[i].0.clone();
        let key = scores[i].1;
        let mut pos: usize = 0;
        while pos < sorted.len() && sorted[pos].1 >= key
            invariant
                pos <= sorted@.len(),
                forall|t: int| 0 <= t < pos ==> sorted@[t].1 >= key,
            decreases sorted@.len() - pos,
        {
            pos += 1;
        }
        let ghost before = sorted@;
        proof {
            lemma_insert_desc_at((term, key), before, pos as int);
            lemma_insert_desc_sorted((term, key), before);
            lemma_insert_desc_len((term, key), before);
            assert((term, key) == scores@[i as int]);
            assert(scores@.take(i + 1).drop_last() =~= scores@.take(i as int));
            assert(scores@.take(i + 1).last() == scores@[i as int]);
        }
        sorted.insert(pos, (term, key));
        proof {
            assert(before.insert(pos as int, (term, key)) =~= before.take(pos as int) + seq![
                (term, key),
            ] + before.skip(pos as int));
        }
        i += 1;
    }
    proof {
        assert(scores@.take(scores@.len() as int) =~= scores@);
    }
    sorted.truncate(k);
    sorted
}

} // verus!
