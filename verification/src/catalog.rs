//! The word catalog and its queries.
//!
//! A [`WordCatalog`] is a fixed, rank-ordered list of words: index 0 holds the
//! most frequent word. Every operation is a pure read query; invalid ranges,
//! out-of-bounds ranks and unknown words are answered with `None`, never with
//! a panic.

use vstd::prelude::*;
use vstd::string::StringSliceAdditionalSpecFns;
use vstd::utf8::encode_utf8;

use crate::order::{sort_words, sorted_words};

verus! {

/// The words of a catalog are pairwise distinct, so each word has one rank.
pub open spec fn distinct_words(s: Seq<Seq<char>>) -> bool {
    forall|i: int, j: int| 0 <= i < j < s.len() ==> s[i] != s[j]
}

/// A fixed, immutable, rank-ordered catalog of words. It is built once, is
/// never changed afterwards, and answers only read queries.
pub struct WordCatalog {
    words: Vec<String>,
}

impl View for WordCatalog {
    type V = Seq<Seq<char>>;

    closed spec fn view(&self) -> Seq<Seq<char>> {
        self.words.deep_view()
    }
}

impl WordCatalog {
    /// The catalog's invariant: no word appears at two ranks.
    pub open spec fn wf(&self) -> bool {
        distinct_words(self@)
    }

    /// Builds a catalog from words listed in rank order, most frequent first.
    /// The words must be pairwise distinct; a list with a repeated word is
    /// rejected.
    pub fn new(words: Vec<String>) -> (r: Option<WordCatalog>)
        ensures
            r is Some <==> distinct_words(words.deep_view()),
            match r {
                Some(c) => c@ == words.deep_view() && c.wf(),
                None => true,
            },
    {
        let n = words.len();
        let mut i: usize = 0;
        while i < n
            invariant
                n == words@.len(),
                i <= n,
                forall|p: int, q: int|
                    0 <= p < q < words.deep_view().len() && p < i
                        ==> words.deep_view()[p] != words.deep_view()[q],
            decreases n - i,
        {
            let mut j: usize = i + 1;
            while j < n
                invariant
                    n == words@.len(),
                    i < j,
                    i < n,
                    j <= n,
                    forall|q: int|
                        i < q < j ==> words.deep_view()[i as int] != words.deep_view()[q],
                decreases n - j,
            {
                if words[i] == words[j] {
                    proof {
                        assert(words.deep_view()[i as int] == words.deep_view()[j as int]);
                    }
                    return None;
                }
                j = j + 1;
            }
            i = i + 1;
        }
        Some(WordCatalog { words })
    }

    /// The number of words in the catalog.
    pub fn len(&self) -> (n: usize)
        ensures
            n == self@.len(),
    {
        self.words.len()
    }
}

/// Decides whether two strings hold the same characters, by comparing their
/// UTF-8 bytes.
fn str_eq(a: &str, b: &str) -> (r: bool)
    ensures
        r == (a@ == b@),
{
    let ab: &[u8] = a.as_bytes();
    let bb: &[u8] = b.as_bytes();
    proof {
        if a@ == b@ {
            assert(ab@ == bb@);
        }
    }
    if ab.len() != bb.len() {
        return false;
    }
    let mut i: usize = 0;
    while i < ab.len()
        invariant
            ab@ == encode_utf8(a@),
            bb@ == encode_utf8(b@),
            ab@.len() == bb@.len(),
            i <= ab@.len(),
            forall|j: int| 0 <= j < i ==> ab@[j] == bb@[j],
        decreases ab@.len() - i,
    {
        if ab[i] != bb[i] {
            proof {
                if a@ == b@ {
                    assert(ab@[i as int] == bb@[i as int]);
                }
            }
            return false;
        }
        i = i + 1;
    }
    proof {
        assert(ab@ =~= bb@);
        vstd::utf8::encode_utf8_decode_utf8(a@);
        vstd::utf8::encode_utf8_decode_utf8(b@);
    }
    true
}

/// Returns all the words of the catalog, ordered by rank: the word at index 0
/// is the most frequent one, and the result holds every word of the catalog.
pub fn get_words(catalog: &WordCatalog) -> (r: Vec<String>)
    ensures
        r.deep_view() == catalog@,
        r@.len() == catalog@.len(),
{
    let n = catalog.words.len();
    let mut r: Vec<String> = Vec::new();
    let mut i: usize = 0;
    while i < n
        invariant
            n == catalog@.len(),
            n == catalog.words@.len(),
            i <= n,
            r.deep_view().len() == i,
            forall|j: int| 0 <= j < i ==> r.deep_view()[j] == catalog@[j],
        decreases n - i,
    {
        r.push(catalog.words[i].clone());
        i = i + 1;
    }
    proof {
        assert(r.deep_view() =~= catalog@);
    }
    r
}

/// Returns all the words of the catalog in ascending alphabetical order:
/// the same words as [`get_words`], merely rearranged.
pub fn get_words_a(catalog: &WordCatalog) -> (r: Vec<String>)
    ensures
        r.deep_view().to_multiset() == catalog@.to_multiset(),
        sorted_words(r.deep_view()),
{
    let all = get_words(catalog);
    sort_words(all)
}

/// One end of a requested span of ranks.
#[derive(Clone, Copy, Debug)]
pub enum RankBound {
    /// The rank itself is part of the span.
    Included(usize),
    /// The span ends just before this rank. As a start bound it is not
    /// honoured and the span starts at rank 0; as an end bound of 0 it cannot
    /// be expressed and the request is invalid.
    Excluded(usize),
    /// The span runs to the catalog's edge.
    Unbounded,
}

/// The first rank a span with this start bound covers.
pub open spec fn start_rank(b: RankBound) -> int {
    match b {
        RankBound::Included(i) => i as int,
        RankBound::Excluded(_) => 0,
        RankBound::Unbounded => 0,
    }
}

/// Whether an end bound can be resolved to a last rank at all: an exclusive
/// end of 0 cannot.
pub open spec fn end_expressible(b: RankBound) -> bool {
    match b {
        RankBound::Excluded(i) => i > 0,
        _ => true,
    }
}

/// The last rank a span with this end bound covers, in a catalog of `n` words.
pub open spec fn end_rank(b: RankBound, n: int) -> int {
    match b {
        RankBound::Included(i) => i as int,
        RankBound::Excluded(i) => i - 1,
        RankBound::Unbounded => n - 1,
    }
}

/// A span of ranks is valid when its end bound resolves, its first rank does
/// not lie past its last, and its last rank lies inside the catalog.
pub open spec fn range_valid(start: RankBound, end: RankBound, n: int) -> bool {
    &&& end_expressible(end)
    &&& start_rank(start) <= end_rank(end, n)
    &&& end_rank(end, n) < n
}

/// Returns the words whose rank falls in the given span, in rank order, or
/// `None` when the span is invalid.
pub fn get_words_range(catalog: &WordCatalog, start: RankBound, end: RankBound) -> (r: Option<
    Vec<String>,
>)
    ensures
        r is Some <==> range_valid(start, end, catalog@.len() as int),
        match r {
            Some(v) => v.deep_view() == catalog@.subrange(
                start_rank(start),
                end_rank(end, catalog@.len() as int) + 1,
            ),
            None => true,
        },
{
    let n = catalog.words.len();
    let start_index: usize = match start {
        RankBound::Included(i) => i,
        RankBound::Excluded(_) => 0,
        RankBound::Unbounded => 0,
    };
    let end_index: usize = match end {
        RankBound::Included(i) => i,
        RankBound::Excluded(i) => {
            if i > 0 {
                i - 1
            } else {
                return None;
            }
        },
        RankBound::Unbounded => {
            if n == 0 {
                return None;
            }
            n - 1
        },
    };
    if start_index > end_index || end_index >= n {
        return None;
    }
    let mut v: Vec<String> = Vec::new();
    let mut i: usize = start_index;
    while i <= end_index
        invariant
            n == catalog@.len(),
            n == catalog.words@.len(),
            start_index <= i <= end_index + 1,
            end_index < n,
            v.deep_view().len() == i - start_index,
            forall|j: int|
                0 <= j < i - start_index ==> v.deep_view()[j] == catalog@[start_index + j],
        decreases end_index + 1 - i,
    {
        let ghost old_dv = v.deep_view();
        v.push(catalog.words[i].clone());
        proof {
            assert(v.deep_view() =~= old_dv.push(catalog@[i as int]));
        }
        i = i + 1;
    }
    proof {
        assert(v.deep_view() =~= catalog@.subrange(
            start_index as int,
            end_index as int + 1,
        ));
    }
    Some(v)
}

/// Returns the words whose rank falls in the given span, sorted
/// alphabetically: the same words as [`get_words_range`] would return, merely
/// rearranged, and `None` exactly when [`get_words_range`] answers `None`.
pub fn get_words_range_a(catalog: &WordCatalog, start: RankBound, end: RankBound) -> (r: Option<
    Vec<String>,
>)
    ensures
        r is Some <==> range_valid(start, end, catalog@.len() as int),
        match r {
            Some(v) => v.deep_view().to_multiset() == catalog@.subrange(
                start_rank(start),
                end_rank(end, catalog@.len() as int) + 1,
            ).to_multiset() && sorted_words(v.deep_view()),
            None => true,
        },
{
    match get_words_range(catalog, start, end) {
        Some(v) => Some(sort_words(v)),
        None => None,
    }
}

/// Returns the word at the given rank, or `None` when the rank lies outside
/// the catalog.
pub fn get_word(catalog: &WordCatalog, position: usize) -> (r: Option<String>)
    ensures
        r is Some <==> position < catalog@.len(),
        match r {
            Some(w) => w@ == catalog@[position as int],
            None => true,
        },
{
    if position < catalog.words.len() {
        Some(catalog.words[position].clone())
    } else {
        None
    }
}

/// What a rank lookup reports: the least rank holding the word, or `None`
/// when the catalog holds it nowhere.
pub open spec fn found_rank(cat: Seq<Seq<char>>, w: Seq<char>, r: Option<usize>) -> bool {
    match r {
        Some(i) => i < cat.len() && cat[i as int] == w && (forall|j: int|
            0 <= j < i ==> cat[j] != w),
        None => forall|j: int| 0 <= j < cat.len() ==> cat[j] != w,
    }
}

/// Looks a word up by exact, case-sensitive match and returns its rank, or
/// `None` when the word is not in the catalog. Lower ranks mean more frequent
/// words.
pub fn is_top_word(catalog: &WordCatalog, word: &str) -> (r: Option<usize>)
    ensures
        found_rank(catalog@, word@, r),
{
    let n = catalog.words.len();
    let mut i: usize = 0;
    while i < n
        invariant
            n == catalog@.len(),
            n == catalog.words@.len(),
            i <= n,
            forall|j: int| 0 <= j < i ==> catalog@[j] != word@,
        decreases n - i,
    {
        if str_eq(catalog.words[i].as_str(), word) {
            return Some(i);
        }
        i = i + 1;
    }
    None
}

/// Words rearranged into another order form the same set: in particular
/// [`get_words_a`]'s output holds exactly the words of [`get_words`]'s.
pub proof fn lemma_alphabetical_same_set(all: Seq<Seq<char>>, alpha: Seq<Seq<char>>)
    requires
        alpha.to_multiset() == all.to_multiset(),
    ensures
        alpha.to_set() == all.to_set(),
{
    broadcast use vstd::set::group_set_axioms;

    assert forall|x: Seq<char>| alpha.contains(x) <==> all.contains(x) by {
        vstd::seq_lib::to_multiset_contains(alpha, x);
        vstd::seq_lib::to_multiset_contains(all, x);
    }
    assert(alpha.to_set() =~= all.to_set());
}

/// In a well-formed catalog each word sits at one rank, so a rank lookup
/// answers `Some(i)` exactly when the catalog holds the word at rank `i`.
pub proof fn lemma_is_top_word_iff(cat: Seq<Seq<char>>, w: Seq<char>, r: Option<usize>, i: usize)
    requires
        distinct_words(cat),
        found_rank(cat, w, r),
    ensures
        r == Some(i) <==> i < cat.len() && cat[i as int] == w,
{
    if i < cat.len() && cat[i as int] == w {
        match r {
            Option::Some(k) => {
                if (k as int) < i as int {
                    assert(cat[k as int] != cat[i as int]);
                    assert(false);
                } else if (i as int) < k as int {
                    assert(cat[i as int] != w);
                    assert(false);
                }
            },
            Option::None => {
                assert(cat[i as int] != w);
                assert(false);
            },
        }
    }
}

/// A rank lookup's answer is determined by the catalog and the word alone,
/// so repeating the lookup returns the identical answer.
pub proof fn lemma_found_rank_unique(
    cat: Seq<Seq<char>>,
    w: Seq<char>,
    r1: Option<usize>,
    r2: Option<usize>,
)
    requires
        found_rank(cat, w, r1),
        found_rank(cat, w, r2),
    ensures
        r1 == r2,
{
    match (r1, r2) {
        (Option::Some(a), Option::Some(b)) => {
            if (a as int) < b as int {
                assert(cat[a as int] != w);
                assert(false);
            } else if (b as int) < a as int {
                assert(cat[b as int] != w);
                assert(false);
            }
        },
        (Option::Some(a), Option::None) => {
            assert(cat[a as int] != w);
            assert(false);
        },
        (Option::None, Option::Some(b)) => {
            assert(cat[b as int] != w);
            assert(false);
        },
        (Option::None, Option::None) => {},
    }
}

/// A span given by two inclusive ranks lo..=hi is valid exactly when
/// lo <= hi < n; an end at or past the catalog's length, or a start past the
/// end, is invalid and the range queries answer `None` for it.
pub proof fn lemma_inclusive_range_validity(lo: usize, hi: usize, n: int)
    ensures
        range_valid(RankBound::Included(lo), RankBound::Included(hi), n) <==> lo <= hi && (
        hi as int) < n,
{
}

/// A valid inclusive range query lo..=hi returns hi - lo + 1 words, and its
/// word at offset k is the full list's word at rank lo + k.
pub proof fn lemma_range_matches_all(
    cat: Seq<Seq<char>>,
    all: Seq<Seq<char>>,
    v: Seq<Seq<char>>,
    lo: usize,
    hi: usize,
)
    requires
        all == cat,
        lo <= hi,
        (hi as int) < cat.len(),
        v == cat.subrange(lo as int, hi as int + 1),
    ensures
        range_valid(RankBound::Included(lo), RankBound::Included(hi), cat.len() as int),
        v.len() == hi - lo + 1,
        forall|k: int| 0 <= k < v.len() ==> v[k] == all[lo + k],
{
}

/// For any bounds under which the plain range query succeeds, the
/// alphabetical range query returns a sorted permutation of the plain one's
/// words: the same multiset and the same set, in ascending order.
pub proof fn lemma_range_alphabetical_permutes(
    cat: Seq<Seq<char>>,
    start: RankBound,
    end: RankBound,
    plain: Seq<Seq<char>>,
    alpha: Seq<Seq<char>>,
)
    requires
        range_valid(start, end, cat.len() as int),
        plain == cat.subrange(start_rank(start), end_rank(end, cat.len() as int) + 1),
        alpha.to_multiset() == cat.subrange(
            start_rank(start),
            end_rank(end, cat.len() as int) + 1,
        ).to_multiset(),
    ensures
        alpha.to_multiset() == plain.to_multiset(),
        alpha.to_set() == plain.to_set(),
{
    lemma_alphabetical_same_set(plain, alpha);
}

} // verus!
