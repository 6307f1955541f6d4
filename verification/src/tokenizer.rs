//! Turning raw text into normalized terms.
//!
//! A term is a maximal whitespace-free run of the input, lowercased,
//! with every non-alphanumeric character removed; words that normalize
//! to the empty string are dropped. Character classification and
//! lowercasing are Unicode questions answered by `std`, so they enter
//! the specifications as uninterpreted functions characterized by the
//! trusted wrappers below.

use vstd::prelude::*;
use vstd::std_specs::iter::IteratorSpec;

verus! {

/// What `char::is_whitespace` returns for a character.
pub uninterp spec fn is_space_char(c: char) -> bool;

/// What `char::is_alphanumeric` returns for a character.
pub uninterp spec fn is_word_char(c: char) -> bool;

/// The characters that `char::to_lowercase` yields for a character.
pub uninterp spec fn lower_chars_of(c: char) -> Seq<char>;

/// Relies on `char::is_whitespace`: the Unicode `White_Space`
/// property of the character, a function of the character alone.
#[verifier::external_body]
fn char_is_whitespace(c: char) -> (r: bool)
    ensures
        r == is_space_char(c),
{
    c.is_whitespace()
}

/// Relies on `char::is_alphanumeric`: true exactly for Unicode
/// letters and digits, a function of the character alone. No
/// character is both alphanumeric and white space: the `White_Space`
/// characters are separators and controls, never letters or digits.
#[verifier::external_body]
fn char_is_alphanumeric(c: char) -> (r: bool)
    ensures
        r == is_word_char(c),
        r ==> !is_space_char(c),
{
    c.is_alphanumeric()
}

/// Relies on `char::to_lowercase`: it yields the lowercase mapping of
/// the character, at least one character long and a function of the
/// character alone. Unicode default case conversion is idempotent, so
/// every character it yields is its own lowercase mapping.
#[verifier::external_body]
fn char_lowercase(c: char) -> (r: Vec<char>)
    ensures
        r@ == lower_chars_of(c),
        r@.len() >= 1,
        forall|i: int| 0 <= i < r@.len() ==> lower_chars_of(r@[i]) == seq![r@[i]],
{
    c.to_lowercase().collect()
}

/// Relies on `String::push`: appends the character to the string.
#[verifier::external_body]
fn push_char(s: &mut String, c: char)
    ensures
        final(s)@ == old(s)@.push(c),
{
    s.push(c);
}

/// The characters of `s` that are alphanumeric, in order.
pub open spec fn keep_word_chars(s: Seq<char>) -> Seq<char>
    decreases s.len(),
{
    if s.len() == 0 {
        Seq::empty()
    } else {
        keep_word_chars(s.drop_last()) + if is_word_char(s.last()) {
            seq![s.last()]
        } else {
            Seq::empty()
        }
    }
}

/// Normalization of one character: its lowercase mapping with every
/// non-alphanumeric character removed.
pub open spec fn norm_char(c: char) -> Seq<char> {
    keep_word_chars(lower_chars_of(c))
}

/// The terms of `s` read left to right, with `cur` holding the
/// normalized characters of the word in progress: white space closes
/// the current word (an empty normalization yields no term), any
/// other character contributes its normalization to it.
pub open spec fn toks(s: Seq<char>, cur: Seq<char>) -> Seq<Seq<char>>
    decreases s.len(),
{
    if s.len() == 0 {
        if cur.len() > 0 {
            seq![cur]
        } else {
            Seq::empty()
        }
    } else if is_space_char(s[0]) {
        (if cur.len() > 0 {
            seq![cur]
        } else {
            Seq::empty()
        }) + toks(s.drop_first(), Seq::empty())
    } else {
        toks(s.drop_first(), cur + norm_char(s[0]))
    }
}

/// The sequence of normalized terms of a text.
pub open spec fn tokens_of(s: Seq<char>) -> Seq<Seq<char>> {
    toks(s, Seq::empty())
}

/// A character as it appears inside an emitted term: alphanumeric,
/// not white space, and its own lowercase mapping.
pub open spec fn normalized_char(c: char) -> bool {
    is_word_char(c) && !is_space_char(c) && lower_chars_of(c) == seq![c]
}

/// A term as the tokenizer emits it: non-empty and made of
/// normalized characters only.
pub open spec fn normalized_term(s: Seq<char>) -> bool {
    s.len() > 0 && forall|i: int| 0 <= i < s.len() ==> normalized_char(s[i])
}

/// The views of a sequence of strings.
pub open spec fn views_of(ts: Seq<String>) -> Seq<Seq<char>> {
    ts.map_values(|t: String| t@)
}

/// Collects the characters of a string slice into a vector.
fn chars_of(text: &str) -> (r: Vec<char>)
    ensures
        r@ == text@,
{
    let mut it = text.chars();
    let mut out: Vec<char> = Vec::new();
    loop
        invariant
            it.obeys_prophetic_iter_laws(),
            it.decrease() is Some,
            out@ + it.remaining() == text@,
        ensures
            out@ == text@,
        decreases it.decrease()->0,
    {
        let ghost prev = out@;
        let ghost rem = it.remaining();
        match it.next() {
            Some(c) => {
                out.push(c);
                proof {
                    assert(prev.push(c) + rem.drop_first() =~= prev + rem);
                }
            },
            None => {
                proof {
                    assert(prev + rem =~= prev);
                }
                break ;
            },
        }
    }
    out
}

/// Splits `text` on white space, lowercases each word and removes its
/// non-alphanumeric characters, and drops words that normalize to the
/// empty string. Every emitted term is non-empty, alphanumeric only,
/// and fixed under lowercasing.
pub fn tokenize(text: &str) -> (r: Vec<String>)
    ensures
        views_of(r@) == tokens_of(text@),
        forall|i: int| 0 <= i < r@.len() ==> normalized_term(r@[i]@),
{
    let cs = chars_of(text);
    let mut result: Vec<String> = Vec::new();
    let mut cur = String::new();
    let mut i: usize = 0;
    proof {
        assert(cs@.skip(0) =~= cs@);
        assert(views_of(result@) =~= Seq::<Seq<char>>::empty());
        assert(views_of(result@) + toks(cs@, cur@) =~= toks(cs@, cur@));
    }
    while i < cs.len()
        invariant
            cs@ == text@,
            i <= cs@.len(),
            forall|j: int| 0 <= j < cur@.len() ==> normalized_char(cur@[j]),
            forall|j: int| 0 <= j < result@.len() ==> normalized_term(result@[j]@),
            views_of(result@) + toks(cs@.skip(i as int), cur@) == tokens_of(text@),
        decreases cs@.len() - i,
    {
        let c = cs[i];
        proof {
            assert(cs@.skip(i as int)[0] == c);
            assert(cs@.skip(i as int).drop_first() =~= cs@.skip(i + 1));
        }
        if char_is_whitespace(c) {
            if !cur.as_str().is_empty() {
                let ghost done = result@;
                let ghost word = cur@;
                result.push(cur);
                cur = String::new();
                proof {
                    assert(views_of(result@) =~= views_of(done).push(word));
                    assert(views_of(done) + toks(cs@.skip(i as int), word) =~= views_of(
                        done,
                    ).push(word) + toks(cs@.skip(i + 1), cur@));
                }
            } else {
                proof {
                    assert(cur@ =~= Seq::<char>::empty());
                }
            }
        } else {
            let lows = char_lowercase(c);
            let ghost before = cur@;
            let mut j: usize = 0;
            while j < lows.len()
                invariant
                    lows@ == lower_chars_of(c),
                    forall|t: int| 0 <= t < lows@.len() ==> lower_chars_of(lows@[t]) == seq![
                        lows@[t],
                    ],
                    j <= lows@.len(),
                    cur@ == before + keep_word_chars(lows@.take(j as int)),
                    forall|t: int| 0 <= t < cur@.len() ==> normalized_char(cur@[t]),
                decreases lows@.len() - j,
            {
                let lc = lows[j];
                proof {
                    assert(lows@.take(j + 1).drop_last() =~= lows@.take(j as int));
                    assert(lows@.take(j + 1).last() == lc);
                }
                if char_is_alphanumeric(lc) {
                    push_char(&mut cur, lc);
                    proof {
                        assert(cur@ =~= before + keep_word_chars(lows@.take(j + 1)));
                    }
                } else {
                    proof {
                        assert(cur@ =~= before + keep_word_chars(lows@.take(j + 1)));
                    }
                }
                j += 1;
            }
            proof {
                assert(lows@.take(lows@.len() as int) =~= lows@);
                assert(cur@ == before + norm_char(c));
            }
        }
        i += 1;
    }
    proof {
        assert(cs@.skip(cs@.len() as int) =~= Seq::<char>::empty());
    }
    if !cur.as_str().is_empty() {
        let ghost done = result@;
        let ghost word = cur@;
        result.push(cur);
        proof {
            assert(views_of(result@) =~= views_of(done).push(word));
            assert(views_of(done) + seq![word] =~= views_of(done).push(word));
        }
    } else {
        proof {
            assert(cur@ =~= Seq::<char>::empty());
            assert(views_of(result@) + Seq::<Seq<char>>::empty() =~= views_of(result@));
        }
    }
    result
}

/// The terms joined into one text, separated by `sep`.
pub open spec fn join_terms(ts: Seq<Seq<char>>, sep: char) -> Seq<char>
    decreases ts.len(),
{
    if ts.len() == 0 {
        Seq::empty()
    } else if ts.len() == 1 {
        ts[0]
    } else {
        ts[0] + seq![sep] + join_terms(ts.drop_first(), sep)
    }
}

/// A text of normalized characters passes through the tokenizer
/// unchanged: each character is kept by the alphanumeric filter and
/// is its own lowercase mapping, and none of them ends the word.
proof fn lemma_normalized_word_passes(t: Seq<char>, s: Seq<char>, cur: Seq<char>)
    requires
        forall|i: int| 0 <= i < t.len() ==> normalized_char(t[i]),
    ensures
        toks(t + s, cur) == toks(s, cur + t),
    decreases t.len(),
{
    if t.len() == 0 {
        assert(t + s =~= s);
        assert(cur + t =~= cur);
    } else {
        let c = t[0];
        assert(normalized_char(c));
        assert(seq![c].drop_last() =~= Seq::<char>::empty());
        assert(keep_word_chars(Seq::<char>::empty()) == Seq::<char>::empty());
        assert(Seq::<char>::empty() + seq![c] =~= seq![c]);
        assert(keep_word_chars(seq![c]) == seq![c]);
        assert(norm_char(c) == seq![c]);
        assert((t + s)[0] == c);
        assert((t + s).drop_first() =~= t.drop_first() + s);
        assert forall|i: int| 0 <= i < t.drop_first().len() implies normalized_char(
            t.drop_first()[i],
        ) by {
            assert(t.drop_first()[i] == t[i + 1]);
        }
        lemma_normalized_word_passes(t.drop_first(), s, cur + seq![c]);
        assert(cur + seq![c] + t.drop_first() =~= cur + t);
        assert(cur + norm_char(c) == cur + seq![c]);
    }
}

/// Tokenizing is idempotent: a sequence of already-normalized terms,
/// written out with any white-space separator between them, tokenizes
/// back to exactly that sequence.
pub proof fn lemma_tokenize_idempotent(terms: Seq<Seq<char>>, sep: char)
    requires
        is_space_char(sep),
        forall|i: int| 0 <= i < terms.len() ==> normalized_term(terms[i]),
    ensures
        tokens_of(join_terms(terms, sep)) == terms,
    decreases terms.len(),
{
    if terms.len() == 0 {
        assert(tokens_of(Seq::empty()) =~= terms);
    } else if terms.len() == 1 {
        let t = terms[0];
        assert(normalized_term(t));
        lemma_normalized_word_passes(t, Seq::empty(), Seq::empty());
        assert(t + Seq::<char>::empty() =~= t);
        assert(Seq::<char>::empty() + t =~= t);
        assert(toks(Seq::<char>::empty(), t) == seq![t]);
        assert(seq![t] =~= terms);
    } else {
        let t = terms[0];
        let rest = terms.drop_first();
        let tail = seq![sep] + join_terms(rest, sep);
        assert(normalized_term(t));
        assert(t + seq![sep] + join_terms(rest, sep) =~= t + tail);
        lemma_normalized_word_passes(t, tail, Seq::empty());
        assert(Seq::<char>::empty() + t =~= t);
        assert(tail[0] == sep);
        assert(tail.drop_first() =~= join_terms(rest, sep));
        assert(toks(tail, t) == seq![t] + toks(join_terms(rest, sep), Seq::empty()));
        assert forall|i: int| 0 <= i < rest.len() implies normalized_term(rest[i]) by {
            assert(rest[i] == terms[i + 1]);
        }
        lemma_tokenize_idempotent(rest, sep);
        assert(seq![t] + rest =~= terms);
    }
}

} // verus!
