//! The alphabetical order on words: lexicographic byte order on each word's
//! UTF-8 encoding, which coincides with codepoint order and is independent of
//! any locale.

use vstd::prelude::*;
use vstd::relations::{sorted_by, total_ordering};
use vstd::utf8::encode_utf8;

verus! {

/// Lexicographic "less than or equal" on byte sequences.
pub open spec fn bytes_le(a: Seq<u8>, b: Seq<u8>) -> bool
    decreases a.len(),
{
    if a.len() == 0 {
        true
    } else if b.len() == 0 {
        false
    } else if a[0] < b[0] {
        true
    } else if a[0] > b[0] {
        false
    } else {
        bytes_le(a.drop_first(), b.drop_first())
    }
}

/// The order the catalog sorts words by: byte order on UTF-8 encodings.
pub open spec fn word_le(a: Seq<char>, b: Seq<char>) -> bool {
    bytes_le(encode_utf8(a), encode_utf8(b))
}

/// `word_le` as a binary relation value, for vstd's order vocabulary.
pub open spec fn word_leq() -> spec_fn(Seq<char>, Seq<char>) -> bool {
    |a: Seq<char>, b: Seq<char>| word_le(a, b)
}

/// A sequence of words in ascending alphabetical order.
pub open spec fn sorted_words(s: Seq<Seq<char>>) -> bool {
    sorted_by(s, word_leq())
}

pub proof fn lemma_bytes_le_refl(a: Seq<u8>)
    ensures
        bytes_le(a, a),
    decreases a.len(),
{
    if a.len() > 0 {
        lemma_bytes_le_refl(a.drop_first());
    }
}

pub proof fn lemma_bytes_le_total(a: Seq<u8>, b: Seq<u8>)
    ensures
        bytes_le(a, b) || bytes_le(b, a),
    decreases a.len(),
{
    if a.len() == 0 || b.len() == 0 {
    } else if a[0] == b[0] {
        lemma_bytes_le_total(a.drop_first(), b.drop_first());
    }
}

pub proof fn lemma_bytes_le_antisym(a: Seq<u8>, b: Seq<u8>)
    requires
        bytes_le(a, b),
        bytes_le(b, a),
    ensures
        a == b,
    decreases a.len(),
{
    if a.len() == 0 {
        assert(b.len() == 0);
        assert(a =~= b);
    } else {
        assert(b.len() > 0);
        lemma_bytes_le_antisym(a.drop_first(), b.drop_first());
        assert forall|i: int| 0 <= i < a.len() implies a[i] == b[i] by {
            if i > 0 {
                assert(a[i] == a.drop_first()[i - 1]);
                assert(b[i] == b.drop_first()[i - 1]);
            }
        }
        assert(a =~= b);
    }
}

pub proof fn lemma_bytes_le_trans(a: Seq<u8>, b: Seq<u8>, c: Seq<u8>)
    requires
        bytes_le(a, b),
        bytes_le(b, c),
    ensures
        bytes_le(a, c),
    decreases a.len(),
{
    if a.len() == 0 {
    } else {
        assert(b.len() > 0);
        assert(c.len() > 0);
        if a[0] == b[0] && b[0] == c[0] {
            lemma_bytes_le_trans(a.drop_first(), b.drop_first(), c.drop_first());
        }
    }
}

pub proof fn lemma_word_le_total(a: Seq<char>, b: Seq<char>)
    ensures
        word_le(a, b) || word_le(b, a),
{
    lemma_bytes_le_total(encode_utf8(a), encode_utf8(b));
}

/// Words with equal UTF-8 encodings are equal, so `word_le` is antisymmetric.
pub proof fn lemma_word_le_antisym(a: Seq<char>, b: Seq<char>)
    requires
        word_le(a, b),
        word_le(b, a),
    ensures
        a == b,
{
    lemma_bytes_le_antisym(encode_utf8(a), encode_utf8(b));
    vstd::utf8::encode_utf8_decode_utf8(a);
    vstd::utf8::encode_utf8_decode_utf8(b);
}

pub proof fn lemma_word_le_trans(a: Seq<char>, b: Seq<char>, c: Seq<char>)
    requires
        word_le(a, b),
        word_le(b, c),
    ensures
        word_le(a, c),
{
    lemma_bytes_le_trans(encode_utf8(a), encode_utf8(b), encode_utf8(c));
}

/// Alphabetical order is a total order on words. In particular a sorted
/// arrangement of any given words is unique.
pub proof fn lemma_word_le_total_ordering()
    ensures
        total_ordering(word_leq()),
{
    let leq = word_leq();
    assert forall|x: Seq<char>| #[trigger] leq(x, x) by {
        lemma_bytes_le_refl(encode_utf8(x));
    }
    assert forall|x: Seq<char>, y: Seq<char>|
        #[trigger] leq(x, y) && #[trigger] leq(y, x) implies x == y by {
        lemma_word_le_antisym(x, y);
    }
    assert forall|x: Seq<char>, y: Seq<char>, z: Seq<char>|
        #[trigger] leq(x, y) && #[trigger] leq(y, z) implies leq(x, z) by {
        lemma_word_le_trans(x, y, z);
    }
    assert forall|x: Seq<char>, y: Seq<char>| #[trigger] leq(x, y) || #[trigger] leq(y, x) by {
        lemma_word_le_total(x, y);
    }
}

/// Two alphabetically sorted sequences holding the same words are the same
/// sequence. A sorted query's result is therefore determined by the words
/// alone: repeating the query returns an identical result.
pub proof fn lemma_sorted_result_unique(a: Seq<Seq<char>>, b: Seq<Seq<char>>)
    requires
        sorted_words(a),
        sorted_words(b),
        a.to_multiset() == b.to_multiset(),
    ensures
        a == b,
{
    lemma_word_le_total_ordering();
    vstd::seq_lib::lemma_sorted_unique(a, b, word_leq());
    assert(a =~= b);
}

/// Decides `word_le` on two words by walking their UTF-8 bytes.
pub fn le_words(a: &String, b: &String) -> (r: bool)
    ensures
        r == word_le(a@, b@),
{
    let ab: &[u8] = a.as_str().as_bytes();
    let bb: &[u8] = b.as_str().as_bytes();
    let mut i: usize = 0;
    proof {
        assert(ab@.skip(0) =~= ab@);
        assert(bb@.skip(0) =~= bb@);
    }
    while i < ab.len() && i < bb.len()
        invariant
            ab@ == encode_utf8(a@),
            bb@ == encode_utf8(b@),
            i <= ab@.len(),
            i <= bb@.len(),
            word_le(a@, b@) == bytes_le(ab@.skip(i as int), bb@.skip(i as int)),
        decreases ab@.len() - i,
    {
        let x = ab[i];
        let y = bb[i];
        proof {
            let xs = ab@.skip(i as int);
            let ys = bb@.skip(i as int);
            assert(xs[0] == ab@[i as int]);
            assert(ys[0] == bb@[i as int]);
            assert(xs.drop_first() =~= ab@.skip(i as int + 1));
            assert(ys.drop_first() =~= bb@.skip(i as int + 1));
        }
        if x < y {
            return true;
        }
        if x > y {
            return false;
        }
        i = i + 1;
    }
    proof {
        let xs = ab@.skip(i as int);
        let ys = bb@.skip(i as int);
        if i == ab@.len() {
            assert(xs.len() == 0);
            assert(bytes_le(xs, ys));
        } else {
            assert(i == bb@.len());
            assert(ys.len() == 0);
            assert(xs.len() > 0);
            assert(!bytes_le(xs, ys));
        }
    }
    ab.len() <= bb.len()
}

/// Sorts the given words into ascending alphabetical order. The result holds
/// exactly the words handed in, as a multiset.
pub fn sort_words(words: Vec<String>) -> (r: Vec<String>)
    ensures
        r.deep_view().to_multiset() == words.deep_view().to_multiset(),
        sorted_words(r.deep_view()),
{
    broadcast use vstd::seq_lib::group_to_multiset_ensures;
    broadcast use vstd::multiset::group_multiset_axioms;

    let mut rest = words;
    let mut out: Vec<String> = Vec::new();
    proof {
        assert(out.deep_view() =~= Seq::<Seq<char>>::empty());
        assert(out.deep_view().to_multiset().add(rest.deep_view().to_multiset())
            =~= words.deep_view().to_multiset());
    }
    while rest.len() > 0
        invariant
            out.deep_view().to_multiset().add(rest.deep_view().to_multiset())
                == words.deep_view().to_multiset(),
            sorted_words(out.deep_view()),
            forall|i: int, j: int|
                0 <= i < out.deep_view().len() && 0 <= j < rest.deep_view().len()
                    ==> word_le(#[trigger] out.deep_view()[i], #[trigger] rest.deep_view()[j]),
        decreases rest.len(),
    {
        let mut m: usize = 0;
        let mut k: usize = 1;
        proof {
            lemma_bytes_le_refl(encode_utf8(rest.deep_view()[0]));
        }
        while k < rest.len()
            invariant
                rest.deep_view().len() > 0,
                m < k,
                k <= rest.deep_view().len(),
                forall|j: int|
                    0 <= j < k ==> word_le(
                        rest.deep_view()[m as int],
                        #[trigger] rest.deep_view()[j],
                    ),
            decreases rest.len() - k,
        {
            let ghost old_m = m as int;
            if le_words(&rest[k], &rest[m]) {
                proof {
                    assert forall|j: int| 0 <= j < k + 1 implies word_le(
                        rest.deep_view()[k as int],
                        #[trigger] rest.deep_view()[j],
                    ) by {
                        if j < k {
                            lemma_word_le_trans(
                                rest.deep_view()[k as int],
                                rest.deep_view()[old_m],
                                rest.deep_view()[j],
                            );
                        } else {
                            lemma_bytes_le_refl(encode_utf8(rest.deep_view()[k as int]));
                        }
                    }
                }
                m = k;
            } else {
                proof {
                    lemma_word_le_total(rest.deep_view()[k as int], rest.deep_view()[old_m]);
                }
            }
            k = k + 1;
        }
        let ghost old_out = out.deep_view();
        let ghost old_rest = rest.deep_view();
        let w = rest.remove(m);
        out.push(w);
        proof {
            broadcast use vstd::multiset::group_multiset_axioms;

            assert(rest.deep_view() =~= old_rest.remove(m as int));
            assert(out.deep_view() =~= old_out.push(w@));

            vstd::seq_lib::to_multiset_remove(old_rest, m as int);
            vstd::seq_lib::to_multiset_build(old_out, w@);
            assert(old_rest[m as int] == w@);
            vstd::seq_lib::to_multiset_contains(old_rest, w@);
            assert(old_rest.to_multiset().count(w@) > 0);
            assert forall|x: Seq<char>|
                out.deep_view().to_multiset().add(rest.deep_view().to_multiset()).count(x)
                    == words.deep_view().to_multiset().count(x) by {
                assert(old_out.to_multiset().add(old_rest.to_multiset()).count(x)
                    == words.deep_view().to_multiset().count(x));
                assert(out.deep_view().to_multiset() == old_out.to_multiset().insert(w@));
                assert(rest.deep_view().to_multiset() == old_rest.to_multiset().remove(w@));
            }
            assert(out.deep_view().to_multiset().add(rest.deep_view().to_multiset())
                =~= words.deep_view().to_multiset());
            assert forall|i: int, j: int|
                0 <= i < j < out.deep_view().len() implies word_leq()(
                #[trigger] out.deep_view()[i],
                #[trigger] out.deep_view()[j],
            ) by {
                if j < old_out.len() {
                    assert(sorted_by(old_out, word_leq()));
                } else {
                    assert(out.deep_view()[j] == old_rest[m as int]);
                }
            }
            assert forall|i: int, j: int|
                0 <= i < out.deep_view().len() && 0 <= j < rest.deep_view().len()
                    implies word_le(
                #[trigger] out.deep_view()[i],
                #[trigger] rest.deep_view()[j],
            ) by {
                let rj: int = if j < m as int {
                    j
                } else {
                    j + 1
                };
                assert(rest.deep_view()[j] == old_rest[rj]);
                if i < old_out.len() {
                    assert(word_le(out.deep_view()[i], old_rest[rj]));
                } else {
                    assert(out.deep_view()[i] == old_rest[m as int]);
                    assert(word_le(old_rest[m as int], old_rest[rj]));
                }
            }
        }
    }
    proof {
        broadcast use vstd::multiset::group_multiset_axioms;

        assert(rest.deep_view() =~= Seq::<Seq<char>>::empty());
        vstd::seq_lib::to_multiset_len(rest.deep_view());
        assert forall|x: Seq<char>|
            out.deep_view().to_multiset().add(rest.deep_view().to_multiset()).count(x)
                == out.deep_view().to_multiset().count(x) by {
            assert(rest.deep_view().to_multiset().count(x) <= rest.deep_view().to_multiset().len());
        }
        assert(out.deep_view().to_multiset().add(rest.deep_view().to_multiset())
            =~= out.deep_view().to_multiset());
    }
    out
}

} // verus!
