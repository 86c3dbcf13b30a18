//! Document fingerprints and their comparison.
//!
//! A fingerprint bundles the original bytes, the canonical text the
//! normalizer derived from the token stream, the offset table mapping
//! canonical positions back to original byte offsets, the noise threshold
//! `k`, one stable hash per k-gram of the canonical text, and the winnowed
//! selection of hash indices. A fingerprint is built once per document and
//! only ever read afterwards.

use crate::algorithms::{
    binary_search, hash_kgrams, lemma_winnowed_unique, pair_lt, pairs_sorted, spec_hash,
    strictly_increasing, winnow, winnowed,
};
use crate::tokenize::{spec_classify, token_matches_item, tokenize_tree, Token, TokenKind, TreeItem};
use std::collections::HashSet;
use vstd::prelude::*;

verus! {

broadcast use vstd::std_specs::hash::group_hash_axioms;

/// Everything that can go wrong across the pipeline. Each failure is
/// reported to the caller; none is silently coerced into a number.
#[derive(Clone, Copy, Debug, PartialEq, Eq, Structural)]
pub enum DetectorError {
    /// The grammar engine does not handle the requested language.
    UnsupportedLanguage,
    /// The grammar engine could not build a token stream for the input.
    ParseFailure,
    /// Two fingerprints built with different noise thresholds were compared.
    ThresholdMismatch,
    /// The document is shorter than one k-gram, or its selected coverage is
    /// zero, so hashing or similarity scoring is undefined.
    DegenerateInput,
    /// Reading the input failed.
    IOError,
}

/// Canonical symbol emitted for a function-like identifier (`F`).
pub const CANONICAL_FUNCTION: u8 = 70;

/// Canonical symbol emitted for a class-like identifier (`O`).
pub const CANONICAL_CLASS: u8 = 79;

/// Canonical symbol emitted for any other identifier (`V`).
pub const CANONICAL_VARIABLE: u8 = 86;

/// What one classified token contributes to the canonical text: a single
/// role symbol for identifier-like tokens, its literal bytes otherwise.
pub open spec fn token_emission(t: Token) -> Seq<u8> {
    match t.kind {
        TokenKind::NameFunction => seq![CANONICAL_FUNCTION],
        TokenKind::NameClass => seq![CANONICAL_CLASS],
        TokenKind::Name => seq![CANONICAL_VARIABLE],
        TokenKind::Text => t.text@,
    }
}

/// The canonical text of a classified token stream: the concatenation of
/// every token's emission, in order.
pub open spec fn canonical_of(tokens: Seq<Token>) -> Seq<u8>
    decreases tokens.len(),
{
    if tokens.len() == 0 {
        Seq::empty()
    } else {
        canonical_of(tokens.drop_last()) + token_emission(tokens.last())
    }
}

/// The offset table for a token stream: entry 0 is `(0, 0)`, and entry
/// `i + 1` pairs the canonical length after token `i` with that token's end
/// byte.
pub open spec fn offsets_wf(tokens: Seq<Token>, offs: Seq<(usize, usize)>) -> bool {
    &&& offs.len() == tokens.len() + 1
    &&& offs[0] == (0usize, 0usize)
    &&& forall|i: int| 1 <= i < offs.len() ==> (#[trigger] offs[i]).0 == canonical_of(
        tokens.take(i),
    ).len() && offs[i].1 == tokens[i - 1].end_byte
}

/// Normalize a classified token stream into the canonical text and the
/// offset table mapping canonical positions back to original byte offsets.
pub fn filter_code(tokens: &Vec<Token>) -> (r: (Vec<u8>, Vec<(usize, usize)>))
    ensures
        r.0@ == canonical_of(tokens@),
        offsets_wf(tokens@, r.1@),
{
    let mut out_code: Vec<u8> = Vec::new();
    let mut offsets: Vec<(usize, usize)> = Vec::new();
    offsets.push((0, 0));
    let mut i: usize = 0;
    while i < tokens.len()
        invariant
            0 <= i <= tokens@.len(),
            out_code@ == canonical_of(tokens@.take(i as int)),
            offsets@.len() == i + 1,
            offsets@[0] == (0usize, 0usize),
            forall|p: int| 1 <= p < offsets@.len() ==> (#[trigger] offsets@[p]).0 == canonical_of(
                tokens@.take(p),
            ).len() && offsets@[p].1 == tokens@[p - 1].end_byte,
        decreases tokens@.len() - i,
    {
        let t: &Token = &tokens[i];
        match t.kind {
            TokenKind::NameFunction => out_code.push(CANONICAL_FUNCTION),
            TokenKind::NameClass => out_code.push(CANONICAL_CLASS),
            TokenKind::Name => out_code.push(CANONICAL_VARIABLE),
            TokenKind::Text => {
                let mut j: usize = 0;
                while j < t.text.len()
                    invariant
                        0 <= j <= t.text@.len(),
                        0 <= i < tokens@.len(),
                        t == &tokens@[i as int],
                        out_code@ == canonical_of(tokens@.take(i as int)) + t.text@.take(j as int),
                    decreases t.text@.len() - j,
                {
                    out_code.push(t.text[j]);
                    proof {
                        assert(canonical_of(tokens@.take(i as int)) + t.text@.take(j + 1)
                            =~= (canonical_of(tokens@.take(i as int)) + t.text@.take(
                            j as int,
                        )).push(t.text@[j as int]));
                    }
                    j = j + 1;
                }
                proof {
                    assert(t.text@.take(t.text@.len() as int) =~= t.text@);
                }
            },
        }
        offsets.push((out_code.len(), t.end_byte));
        proof {
            assert(tokens@.take(i + 1).drop_last() =~= tokens@.take(i as int));
            assert(tokens@.take(i + 1).last() == tokens@[i as int]);
            assert(out_code@ =~= canonical_of(tokens@.take(i + 1)));
        }
        i = i + 1;
    }
    proof {
        assert(tokens@.take(tokens@.len() as int) =~= tokens@);
    }
    (out_code, offsets)
}

/// Canonical position `p` is touched by the k-gram at some index of `sel`.
pub open spec fn is_covered(sel: Seq<usize>, k: int, p: int) -> bool {
    exists|i: int| 0 <= i < sel.len() && #[trigger] sel[i] <= p < sel[i] + k
}

/// How many of the canonical positions `0 .. n` are touched by a k-gram at
/// an index of `sel`.
pub open spec fn covered_count(sel: Seq<usize>, k: int, n: int) -> int
    decreases n,
{
    if n <= 0 {
        0
    } else {
        covered_count(sel, k, n - 1) + if is_covered(sel, k, n - 1) {
            1int
        } else {
            0int
        }
    }
}

proof fn lemma_covered_take_step(sel: Seq<usize>, k: int, i: int, p: int)
    requires
        0 <= i < sel.len(),
    ensures
        is_covered(sel.take(i + 1), k, p) <==> (is_covered(sel.take(i), k, p) || (sel[i] <= p
            < sel[i] + k)),
{
    if is_covered(sel.take(i + 1), k, p) {
        let q = choose|q: int|
            0 <= q < sel.take(i + 1).len() && #[trigger] sel.take(i + 1)[q] <= p < sel.take(i + 1)[q]
                + k;
        if q < i {
            assert(sel.take(i)[q] == sel[q]);
            assert(is_covered(sel.take(i), k, p));
        }
    }
    if is_covered(sel.take(i), k, p) {
        let q = choose|q: int|
            0 <= q < sel.take(i).len() && #[trigger] sel.take(i)[q] <= p < sel.take(i)[q] + k;
        assert(sel.take(i + 1)[q] == sel[q]);
        assert(is_covered(sel.take(i + 1), k, p));
    }
    if sel[i] <= p < sel[i] + k {
        assert(sel.take(i + 1)[i] == sel[i]);
        assert(is_covered(sel.take(i + 1), k, p));
    }
}

/// One document fingerprint: built once, read any number of times.
#[derive(Debug)]
pub struct DocumentFingerprint {
    /// The unmodified original source bytes.
    pub code: Vec<u8>,
    /// The canonical text derived from the token stream.
    pub filtered_code: Vec<u8>,
    /// `(canonical_position, original_byte_offset)` pairs, non-decreasing in
    /// both coordinates, first entry `(0, 0)`.
    pub offsets: Vec<(usize, usize)>,
    /// The noise threshold: the k-gram length.
    pub k: usize,
    /// One hash per k-gram of the canonical text.
    pub hashes: Vec<u64>,
    /// The winnowed selection of hash indices, strictly ascending.
    pub selected_indices: Vec<usize>,
}

impl DocumentFingerprint {
    /// The structural invariant every fingerprint satisfies.
    pub open spec fn wf(self) -> bool {
        &&& 1 <= self.k
        &&& self.offsets@.len() >= 1
        &&& self.offsets@.len() < usize::MAX / 2
        &&& self.offsets@[0] == (0usize, 0usize)
        &&& pairs_sorted(self.offsets@)
        &&& forall|p: int, q: int| 0 <= p < q < self.offsets@.len() ==> (#[trigger] self.offsets@[p]).1
            <= (#[trigger] self.offsets@[q]).1
        &&& forall|i: int| 0 <= i < self.offsets@.len() ==> (#[trigger] self.offsets@[i]).0
            <= self.filtered_code@.len() && self.offsets@[i].1 <= self.code@.len()
        &&& self.filtered_code@.len() >= self.k ==> self.hashes@.len() == self.filtered_code@.len()
            - self.k + 1
        &&& self.filtered_code@.len() < self.k ==> self.hashes@.len() == 0
        &&& forall|i: int| 0 <= i < self.hashes@.len() ==> #[trigger] self.hashes@[i] == spec_hash(
            self.filtered_code@.subrange(i, i + self.k),
        )
        &&& strictly_increasing(self.selected_indices@)
        &&& forall|i: int| 0 <= i < self.selected_indices@.len() ==> #[trigger] self.selected_indices@[i]
            < self.hashes@.len()
    }

    /// The number of canonical positions this document's own selected
    /// k-grams touch: the denominator of its similarity score.
    pub fn selected_coverage(&self) -> (r: usize)
        requires
            self.wf(),
        ensures
            r == covered_count(
                self.selected_indices@,
                self.k as int,
                self.filtered_code@.len() as int,
            ),
    {
        let ghost selv: Seq<usize> = self.selected_indices@;
        let ghost kk: int = self.k as int;
        let len: usize = self.filtered_code.len();
        let mut coverage: Vec<usize> = Vec::new();
        let mut p: usize = 0;
        while p < len
            invariant
                0 <= p <= len,
                coverage@.len() == p,
                forall|q: int| 0 <= q < p ==> coverage@[q] == 0,
            decreases len - p,
        {
            coverage.push(0);
            p = p + 1;
        }
        let mut i: usize = 0;
        while i < self.selected_indices.len()
            invariant
                self.wf(),
                selv == self.selected_indices@,
                kk == self.k as int,
                len == self.filtered_code@.len(),
                0 <= i <= selv.len(),
                coverage@.len() == len,
                forall|q: int| 0 <= q < len ==> coverage@[q] == 0 || coverage@[q] == 1,
                forall|q: int| 0 <= q < len ==> ((#[trigger] coverage@[q] == 1) <==> is_covered(
                    selv.take(i as int),
                    kk,
                    q,
                )),
            decreases selv.len() - i,
        {
            let idx: usize = self.selected_indices[i];
            assert(idx + kk <= len);
            let mut j: usize = 0;
            while j < self.k
                invariant
                    self.wf(),
                    selv == self.selected_indices@,
                    kk == self.k as int,
                    len == self.filtered_code@.len(),
                    0 <= i < selv.len(),
                    idx == selv[i as int],
                    idx + kk <= len,
                    0 <= j <= self.k,
                    coverage@.len() == len,
                    forall|q: int| 0 <= q < len ==> coverage@[q] == 0 || coverage@[q] == 1,
                    forall|q: int| 0 <= q < len ==> ((#[trigger] coverage@[q] == 1) <==> (
                    is_covered(selv.take(i as int), kk, q) || (idx <= q < idx + j))),
                decreases self.k - j,
            {
                coverage.set(idx + j, 1);
                j = j + 1;
            }
            proof {
                assert forall|q: int| 0 <= q < len implies ((#[trigger] coverage@[q] == 1) <==>
                is_covered(selv.take(i + 1), kk, q)) by {
                    lemma_covered_take_step(selv, kk, i as int, q);
                }
            }
            i = i + 1;
        }
        proof {
            assert(selv.take(selv.len() as int) =~= selv);
        }
        let mut total: usize = 0;
        let mut q: usize = 0;
        while q < len
            invariant
                0 <= q <= len,
                coverage@.len() == len,
                forall|t: int| 0 <= t < len ==> coverage@[t] == 0 || coverage@[t] == 1,
                forall|t: int| 0 <= t < len ==> ((#[trigger] coverage@[t] == 1) <==> is_covered(
                    selv,
                    kk,
                    t,
                )),
                total == covered_count(selv, kk, q as int),
                total <= q,
            decreases len - q,
        {
            total = total + coverage[q];
            q = q + 1;
        }
        total
    }
}

/// What one tree leaf contributes to the canonical text, through its
/// classification.
pub open spec fn item_emission(item: TreeItem) -> Seq<u8> {
    match spec_classify(item) {
        TokenKind::NameFunction => seq![CANONICAL_FUNCTION],
        TokenKind::NameClass => seq![CANONICAL_CLASS],
        TokenKind::Name => seq![CANONICAL_VARIABLE],
        TokenKind::Text => item.text@,
    }
}

/// The canonical text a leaf stream normalizes to.
pub open spec fn canonical_of_items(items: Seq<TreeItem>) -> Seq<u8>
    decreases items.len(),
{
    if items.len() == 0 {
        Seq::empty()
    } else {
        canonical_of_items(items.drop_last()) + item_emission(items.last())
    }
}

/// Tokens classified from a leaf stream normalize to the leaf stream's own
/// canonical text.
proof fn lemma_canonical_agree(tokens: Seq<Token>, items: Seq<TreeItem>)
    requires
        tokens.len() == items.len(),
        forall|i: int| 0 <= i < items.len() ==> token_matches_item(#[trigger] tokens[i], items[i]),
    ensures
        canonical_of(tokens) == canonical_of_items(items),
    decreases tokens.len(),
{
    if tokens.len() > 0 {
        assert forall|i: int| 0 <= i < items.drop_last().len() implies token_matches_item(
            #[trigger] tokens.drop_last()[i],
            items.drop_last()[i],
        ) by {
            assert(tokens.drop_last()[i] == tokens[i]);
        }
        lemma_canonical_agree(tokens.drop_last(), items.drop_last());
        assert(token_matches_item(tokens[tokens.len() - 1], items[items.len() - 1]));
        assert(token_emission(tokens.last()) == item_emission(items.last()));
    }
}

/// Canonical length is monotone in the number of leaves consumed.
proof fn lemma_canonical_items_prefix_len(items: Seq<TreeItem>, i: int, j: int)
    requires
        0 <= i <= j <= items.len(),
    ensures
        canonical_of_items(items.take(i)).len() <= canonical_of_items(items.take(j)).len(),
    decreases j - i,
{
    if i < j {
        lemma_canonical_items_prefix_len(items, i, j - 1);
        assert(items.take(j).drop_last() =~= items.take(j - 1));
    }
}

/// The offset table over leaves: entry 0 is `(0, 0)`, entry `i + 1` pairs
/// the canonical length after leaf `i` with that leaf's end byte.
pub open spec fn item_offsets_wf(items: Seq<TreeItem>, offs: Seq<(usize, usize)>) -> bool {
    &&& offs.len() == items.len() + 1
    &&& offs[0] == (0usize, 0usize)
    &&& forall|i: int| 1 <= i < offs.len() ==> (#[trigger] offs[i]).0 == canonical_of_items(
        items.take(i),
    ).len() && offs[i].1 == items[i - 1].end_byte
}

/// In an ordered token stream, end bytes are monotone across any distance.
proof fn lemma_items_ordered(items: Seq<TreeItem>, p: int, q: int)
    requires
        forall|i: int| 1 <= i < items.len() ==> (#[trigger] items[i]).start_byte >= items[i
            - 1].end_byte,
        forall|i: int| 0 <= i < items.len() ==> (#[trigger] items[i]).start_byte
            <= items[i].end_byte,
        0 <= p <= q < items.len(),
    ensures
        items[p].end_byte <= items[q].end_byte,
    decreases q - p,
{
    if p < q {
        lemma_items_ordered(items, p, q - 1);
        assert(items[q].start_byte >= items[q - 1].end_byte);
    }
}

/// When every token's canonical contribution fits inside its byte span and
/// the spans do not overlap, the canonical text is no longer than the
/// source region the tokens cover.
proof fn lemma_canonical_bounded(items: Seq<TreeItem>)
    requires
        forall|i: int| 1 <= i < items.len() ==> (#[trigger] items[i]).start_byte >= items[i
            - 1].end_byte,
        forall|i: int| 0 <= i < items.len() ==> item_emission(#[trigger] items[i]).len()
            <= items[i].end_byte - items[i].start_byte,
    ensures
        items.len() == 0 ==> canonical_of_items(items).len() == 0,
        items.len() >= 1 ==> canonical_of_items(items).len() <= items.last().end_byte,
    decreases items.len(),
{
    if items.len() >= 1 {
        let pref = items.drop_last();
        assert forall|i: int| 1 <= i < pref.len() implies (#[trigger] pref[i]).start_byte
            >= pref[i - 1].end_byte by {
            assert(pref[i] == items[i] && pref[i - 1] == items[i - 1]);
            assert(items[i].start_byte >= items[i - 1].end_byte);
        }
        assert forall|i: int| 0 <= i < pref.len() implies item_emission(#[trigger] pref[i]).len()
            <= pref[i].end_byte - pref[i].start_byte by {
            assert(pref[i] == items[i]);
            assert(item_emission(items[i]).len() <= items[i].end_byte - items[i].start_byte);
        }
        lemma_canonical_bounded(pref);
        let lastit = items[items.len() - 1];
        assert(canonical_of_items(items) == canonical_of_items(pref) + item_emission(lastit));
        assert(item_emission(lastit).len() <= lastit.end_byte - lastit.start_byte);
        if items.len() >= 2 {
            assert(lastit.start_byte >= items[items.len() - 2].end_byte);
            assert(pref.last() == items[items.len() - 2]);
        }
    }
}

/// The full relation between a fingerprint and the document it was
/// generated from: it determines every component of the fingerprint.
pub open spec fn fingerprint_of(
    fp: DocumentFingerprint,
    code: Seq<u8>,
    items: Seq<TreeItem>,
    t: int,
    k: int,
) -> bool {
    &&& fp.wf()
    &&& fp.code@ == code
    &&& fp.k == k
    &&& fp.filtered_code@ == canonical_of_items(items)
    &&& fp.filtered_code@.len() <= fp.code@.len()
    &&& item_offsets_wf(items, fp.offsets@)
    &&& winnowed(fp.hashes@, t - k + 1, fp.selected_indices@)
}

/// Generate the fingerprint of one document from its source bytes and the
/// leaf stream the grammar engine produced for it.
///
/// `guarantee_threshold` (`t`) is the length from which a shared region is
/// guaranteed to be detected; `noise_threshold` (`k`) is the k-gram length.
/// A document whose canonical text is shorter than `k` has no k-gram and is
/// rejected as degenerate.
pub fn generate_fingerprint(
    code: Vec<u8>,
    items: &Vec<TreeItem>,
    guarantee_threshold: usize,
    noise_threshold: usize,
) -> (r: Result<DocumentFingerprint, DetectorError>)
    requires
        1 <= noise_threshold <= guarantee_threshold,
        items@.len() + 2 < usize::MAX / 2,
        forall|i: int| 0 <= i < items@.len() ==> (#[trigger] items@[i]).end_byte <= code@.len(),
        forall|i: int| 1 <= i < items@.len() ==> (#[trigger] items@[i]).start_byte >= items@[i
            - 1].end_byte,
        forall|i: int| 0 <= i < items@.len() ==> item_emission(#[trigger] items@[i]).len()
            <= items@[i].end_byte - items@[i].start_byte,
    ensures
        match r {
            Result::Ok(fp) => canonical_of_items(items@).len() >= noise_threshold
                && fingerprint_of(
                fp,
                code@,
                items@,
                guarantee_threshold as int,
                noise_threshold as int,
            ),
            Result::Err(e) => e == DetectorError::DegenerateInput && canonical_of_items(
                items@,
            ).len() < noise_threshold,
        },
{
    let k: usize = noise_threshold;
    let window_size: usize = guarantee_threshold - noise_threshold + 1;

    let tokens: Vec<Token> = tokenize_tree(items);
    let fo: (Vec<u8>, Vec<(usize, usize)>) = filter_code(&tokens);
    let filtered_code: Vec<u8> = fo.0;
    let offsets: Vec<(usize, usize)> = fo.1;
    proof {
        lemma_canonical_agree(tokens@, items@);
        assert forall|i: int| 1 <= i < offsets@.len() implies (#[trigger] offsets@[i]).0
            == canonical_of_items(items@.take(i)).len() && offsets@[i].1 == items@[i
            - 1].end_byte by {
            assert forall|p: int| 0 <= p < i implies token_matches_item(
                #[trigger] tokens@.take(i)[p],
                items@.take(i)[p],
            ) by {
                assert(tokens@.take(i)[p] == tokens@[p]);
            }
            lemma_canonical_agree(tokens@.take(i), items@.take(i));
        }
        assert(item_offsets_wf(items@, offsets@));
    }
    if filtered_code.len() < k {
        return Result::Err(DetectorError::DegenerateInput);
    }
    let hashes: Vec<u64> = hash_kgrams(filtered_code.as_slice(), k);
    let selected_indices: Vec<usize> = winnow(&hashes, window_size);

    let fp = DocumentFingerprint { code, filtered_code, offsets, k, hashes, selected_indices };
    proof {
        let itemsv = items@;
        let offs = fp.offsets@;
        let clen = fp.filtered_code@.len() as int;
        assert forall|i: int| 0 <= i < itemsv.len() implies (#[trigger] itemsv[i]).start_byte
            <= itemsv[i].end_byte by {
            assert(item_emission(itemsv[i]).len() <= itemsv[i].end_byte - itemsv[i].start_byte);
        }
        lemma_canonical_bounded(itemsv);
        if itemsv.len() >= 1 {
            assert(itemsv[itemsv.len() - 1].end_byte <= fp.code@.len());
        }
        assert(fp.filtered_code@.len() <= fp.code@.len());
        assert forall|i: int| 0 <= i < offs.len() implies (#[trigger] offs[i]).0 <= clen
            && offs[i].1 <= fp.code@.len() by {
            if i > 0 {
                assert(offs[i].0 == canonical_of_items(itemsv.take(i)).len());
                assert(offs[i].1 == itemsv[i - 1].end_byte);
                assert(itemsv[i - 1].end_byte <= fp.code@.len());
                lemma_canonical_items_prefix_len(itemsv, i, itemsv.len() as int);
                assert(itemsv.take(itemsv.len() as int) =~= itemsv);
            }
        }
        assert forall|p: int, q: int| 0 <= p < q < offs.len() implies (pair_lt(
            #[trigger] offs[p],
            #[trigger] offs[q],
        ) || offs[p] == offs[q]) && offs[p].1 <= offs[q].1 by {
            lemma_canonical_items_prefix_len(itemsv, p, q);
            if p > 0 {
                assert(offs[p].0 == canonical_of_items(itemsv.take(p)).len());
                assert(offs[p].1 == itemsv[p - 1].end_byte);
            } else {
                assert(canonical_of_items(itemsv.take(0)).len() == 0);
            }
            assert(offs[q].0 == canonical_of_items(itemsv.take(q)).len());
            assert(offs[q].1 == itemsv[q - 1].end_byte);
            if p > 0 {
                lemma_items_ordered(itemsv, p - 1, q - 1);
            }
        }
        assert(fp.wf());
    }
    Result::Ok(fp)
}

/// The selected indices of one document whose k-gram hash occurs anywhere
/// in the other document's hash sequence, in order.
pub open spec fn matching_of(sel: Seq<usize>, own: Seq<u64>, other: Seq<u64>) -> Seq<usize>
    decreases sel.len(),
{
    if sel.len() == 0 {
        Seq::empty()
    } else {
        let rest = matching_of(sel.drop_last(), own, other);
        if other.contains(own[sel.last() as int]) {
            rest.push(sel.last())
        } else {
            rest
        }
    }
}

/// The matched indices are a subset of the selected indices, in the same
/// strictly ascending order.
pub proof fn lemma_matching_props(sel: Seq<usize>, own: Seq<u64>, other: Seq<u64>)
    requires
        strictly_increasing(sel),
        forall|j: int| 0 <= j < sel.len() ==> #[trigger] sel[j] < own.len(),
    ensures
        forall|x: usize| #[trigger] matching_of(sel, own, other).contains(x) ==> sel.contains(x),
        strictly_increasing(matching_of(sel, own, other)),
        forall|j: int| 0 <= j < matching_of(sel, own, other).len()
            ==> #[trigger] matching_of(sel, own, other)[j] < own.len(),
    decreases sel.len(),
{
    let m = matching_of(sel, own, other);
    if sel.len() == 0 {
        assert forall|x: usize| #[trigger] m.contains(x) implies sel.contains(x) by {
            let i = choose|i: int| 0 <= i < m.len() && m[i] == x;
        }
    } else {
        let pref = sel.drop_last();
        assert forall|p: int, q: int| 0 <= p < q < pref.len() implies #[trigger] pref[p]
            < #[trigger] pref[q] by {
            assert(sel[p] < sel[q]);
        }
        lemma_matching_props(pref, own, other);
        let mp = matching_of(pref, own, other);
        assert forall|x: usize| #[trigger] m.contains(x) implies sel.contains(x) by {
            let i = choose|i: int| 0 <= i < m.len() && m[i] == x;
            if other.contains(own[sel.last() as int]) {
                if i < m.len() - 1 {
                    assert(mp[i] == x);
                    assert(mp.contains(x));
                    assert(pref.contains(x));
                    let j = choose|j: int| 0 <= j < pref.len() && pref[j] == x;
                    assert(sel[j] == x);
                    assert(sel.contains(x));
                } else {
                    assert(x == sel.last());
                    assert(sel[sel.len() - 1] == x);
                    assert(sel.contains(x));
                }
            } else {
                assert(mp[i] == x);
                assert(mp.contains(x));
                assert(pref.contains(x));
                let j = choose|j: int| 0 <= j < pref.len() && pref[j] == x;
                assert(sel[j] == x);
                assert(sel.contains(x));
            }
        }
        if other.contains(own[sel.last() as int]) {
            assert forall|p: int, q: int| 0 <= p < q < m.len() implies #[trigger] m[p]
                < #[trigger] m[q] by {
                if q < m.len() - 1 {
                    assert(mp[p] < mp[q]);
                } else {
                    assert(m[p] == mp[p]);
                    assert(mp.contains(mp[p]));
                    assert(pref.contains(mp[p]));
                    let j = choose|j: int| 0 <= j < pref.len() && pref[j] == mp[p];
                    assert(sel[j] < sel[sel.len() - 1]);
                }
            }
        }
    }
}

/// Every selected k-gram of a document occurs in its own hash sequence, so
/// matching a document against itself matches every selected index.
pub proof fn lemma_matching_self(sel: Seq<usize>, own: Seq<u64>)
    requires
        forall|j: int| 0 <= j < sel.len() ==> #[trigger] sel[j] < own.len(),
    ensures
        matching_of(sel, own, own) == sel,
    decreases sel.len(),
{
    if sel.len() > 0 {
        let pref = sel.drop_last();
        lemma_matching_self(pref, own);
        assert(own[sel.last() as int] == own[sel[sel.len() - 1] as int]);
        assert(own.contains(own[sel.last() as int]));
        assert(pref.push(sel.last()) =~= sel);
    }
}

/// A lookup structure over a document's hash values, so membership tests
/// run against a set rather than by linear scans.
fn hash_lookup(hashes: &Vec<u64>) -> (s: HashSet<u64>)
    ensures
        forall|x: u64| #[trigger] s@.contains(x) <==> hashes@.contains(x),
{
    let mut s: HashSet<u64> = HashSet::new();
    let mut i: usize = 0;
    while i < hashes.len()
        invariant
            0 <= i <= hashes@.len(),
            forall|x: u64| #[trigger] s@.contains(x) <==> hashes@.take(i as int).contains(x),
        decreases hashes@.len() - i,
    {
        let ghost olds: Set<u64> = s@;
        s.insert(hashes[i]);
        proof {
            assert(s@ == olds.insert(hashes@[i as int]));
            assert forall|x: u64| #[trigger] s@.contains(x) <==> hashes@.take(i + 1).contains(
                x,
            ) by {
                if s@.contains(x) {
                    if x == hashes@[i as int] {
                        assert(hashes@.take(i + 1)[i as int] == x);
                        assert(hashes@.take(i + 1).contains(x));
                    } else {
                        assert(olds.contains(x));
                        assert(hashes@.take(i as int).contains(x));
                        let j = choose|j: int|
                            0 <= j < hashes@.take(i as int).len() && #[trigger] hashes@.take(
                                i as int,
                            )[j] == x;
                        assert(hashes@.take(i + 1)[j] == x);
                        assert(hashes@.take(i + 1).contains(x));
                    }
                }
                if hashes@.take(i + 1).contains(x) {
                    let j = choose|j: int|
                        0 <= j < hashes@.take(i + 1).len() && #[trigger] hashes@.take(i + 1)[j]
                            == x;
                    if j < i {
                        assert(hashes@.take(i as int)[j] == x);
                        assert(hashes@.take(i as int).contains(x));
                    } else {
                        assert(x == hashes@[i as int]);
                    }
                }
            }
        }
        i = i + 1;
    }
    proof {
        assert(hashes@.take(hashes@.len() as int) =~= hashes@);
    }
    s
}

/// Match discovery: each document's selected indices are tested for
/// occurrence of their hash anywhere in the other document's entire hash
/// sequence, in both directions.
pub fn find_matching_hashes(
    hashes1: &Vec<u64>,
    indices1: &Vec<usize>,
    hashes2: &Vec<u64>,
    indices2: &Vec<usize>,
) -> (r: (Vec<usize>, Vec<usize>))
    requires
        forall|j: int| 0 <= j < indices1@.len() ==> #[trigger] indices1@[j] < hashes1@.len(),
        forall|j: int| 0 <= j < indices2@.len() ==> #[trigger] indices2@[j] < hashes2@.len(),
    ensures
        r.0@ == matching_of(indices1@, hashes1@, hashes2@),
        r.1@ == matching_of(indices2@, hashes2@, hashes1@),
{
    let lookup2: HashSet<u64> = hash_lookup(hashes2);
    let mut matched_indices1: Vec<usize> = Vec::new();
    let mut i: usize = 0;
    while i < indices1.len()
        invariant
            0 <= i <= indices1@.len(),
            forall|j: int| 0 <= j < indices1@.len() ==> #[trigger] indices1@[j] < hashes1@.len(),
            forall|x: u64| #[trigger] lookup2@.contains(x) <==> hashes2@.contains(x),
            matched_indices1@ == matching_of(indices1@.take(i as int), hashes1@, hashes2@),
        decreases indices1@.len() - i,
    {
        let idx: usize = indices1[i];
        let hv: u64 = hashes1[idx];
        if lookup2.contains(&hv) {
            matched_indices1.push(idx);
        }
        proof {
            assert(indices1@.take(i + 1).drop_last() =~= indices1@.take(i as int));
            assert(indices1@.take(i + 1).last() == indices1@[i as int]);
        }
        i = i + 1;
    }
    proof {
        assert(indices1@.take(indices1@.len() as int) =~= indices1@);
    }
    let lookup1: HashSet<u64> = hash_lookup(hashes1);
    let mut matched_indices2: Vec<usize> = Vec::new();
    let mut p: usize = 0;
    while p < indices2.len()
        invariant
            0 <= p <= indices2@.len(),
            forall|j: int| 0 <= j < indices2@.len() ==> #[trigger] indices2@[j] < hashes2@.len(),
            forall|x: u64| #[trigger] lookup1@.contains(x) <==> hashes1@.contains(x),
            matched_indices2@ == matching_of(indices2@.take(p as int), hashes2@, hashes1@),
        decreases indices2@.len() - p,
    {
        let idx: usize = indices2[p];
        let hv: u64 = hashes2[idx];
        if lookup1.contains(&hv) {
            matched_indices2.push(idx);
        }
        proof {
            assert(indices2@.take(p + 1).drop_last() =~= indices2@.take(p as int));
            assert(indices2@.take(p + 1).last() == indices2@[p as int]);
        }
        p = p + 1;
    }
    proof {
        assert(indices2@.take(indices2@.len() as int) =~= indices2@);
    }
    (matched_indices1, matched_indices2)
}

/// The merged spans of a strictly ascending matched-index sequence:
/// consecutive indices whose gap is at most `k - 1` fall into one cluster
/// (their k-grams overlap or touch); a cluster from `first` to `last`
/// becomes the span `(first, last + k)` in canonical coordinates.
pub open spec fn spans_of(idx: Seq<usize>, k: int) -> Seq<(int, int)>
    decreases idx.len(),
{
    if idx.len() == 0 {
        Seq::empty()
    } else if idx.len() == 1 {
        seq![(idx[0] as int, idx[0] + k)]
    } else {
        let rest = spans_of(idx.drop_last(), k);
        let last = idx[idx.len() - 1] as int;
        let prev = idx[idx.len() - 2] as int;
        if last - prev > k - 1 {
            rest.push((last, last + k))
        } else {
            rest.update(rest.len() - 1, (rest[rest.len() - 1].0, last + k))
        }
    }
}

/// The total length of a span list.
pub open spec fn spans_total(sp: Seq<(int, int)>) -> int
    decreases sp.len(),
{
    if sp.len() == 0 {
        0
    } else {
        spans_total(sp.drop_last()) + (sp.last().1 - sp.last().0)
    }
}

/// Shape of the merged spans: non-empty, each span non-empty, pairwise
/// disjoint and ascending, bounded by the first index and the last k-gram's
/// end, with the last span ending exactly at `last + k`.
pub proof fn lemma_spans_structure(idx: Seq<usize>, k: int)
    requires
        1 <= k,
        strictly_increasing(idx),
        idx.len() >= 1,
    ensures
        spans_of(idx, k).len() >= 1,
        spans_of(idx, k)[0].0 == idx[0],
        spans_of(idx, k).last().1 == idx.last() + k,
        forall|j: int| 0 <= j < spans_of(idx, k).len() ==> (#[trigger] spans_of(idx, k)[j]).0
            < spans_of(idx, k)[j].1,
        forall|p: int, q: int| 0 <= p < q < spans_of(idx, k).len() ==> (#[trigger] spans_of(
            idx,
            k,
        )[p]).1 <= (#[trigger] spans_of(idx, k)[q]).0,
        forall|j: int| 0 <= j < spans_of(idx, k).len() ==> idx[0] <= (#[trigger] spans_of(
            idx,
            k,
        )[j]).0 && spans_of(idx, k)[j].1 <= idx.last() + k,
    decreases idx.len(),
{
    if idx.len() == 1 {
    } else {
        let pref = idx.drop_last();
        assert forall|p: int, q: int| 0 <= p < q < pref.len() implies #[trigger] pref[p]
            < #[trigger] pref[q] by {
            assert(idx[p] < idx[q]);
        }
        lemma_spans_structure(pref, k);
        let rest = spans_of(pref, k);
        let sp = spans_of(idx, k);
        let last = idx[idx.len() - 1] as int;
        let prev = idx[idx.len() - 2] as int;
        assert(prev == pref.last());
        assert(prev < last);
        if last - prev > k - 1 {
            assert(sp == rest.push((last, last + k)));
            assert forall|p: int, q: int| 0 <= p < q < sp.len() implies (#[trigger] sp[p]).1
                <= (#[trigger] sp[q]).0 by {
                if q < sp.len() - 1 {
                    assert(rest[p].1 <= rest[q].0);
                } else {
                    assert(sp[p].1 <= prev + k);
                }
            }
        } else {
            assert(sp == rest.update(rest.len() - 1, (rest[rest.len() - 1].0, last + k)));
            assert(sp.len() == rest.len());
            assert forall|p: int, q: int| 0 <= p < q < sp.len() implies (#[trigger] sp[p]).1
                <= (#[trigger] sp[q]).0 by {
                if q < sp.len() - 1 {
                    assert(sp[p] == rest[p] && sp[q] == rest[q]);
                } else {
                    assert(sp[p] == rest[p]);
                    assert(sp[q].0 == rest[q].0);
                }
            }
        }
    }
}

proof fn lemma_count_empty(sel: Seq<usize>, k: int, n: int)
    requires
        sel.len() == 0,
    ensures
        covered_count(sel, k, n) == 0,
    decreases n,
{
    if n > 0 {
        lemma_count_empty(sel, k, n - 1);
    }
}

/// Counting positions when coverage splits into an old part and a fresh,
/// disjoint interval `[lo, hi)`.
proof fn lemma_count_split(idx: Seq<usize>, pref: Seq<usize>, k: int, n: int, lo: int, hi: int)
    requires
        0 <= lo <= hi,
        forall|p: int| #[trigger] is_covered(idx, k, p) <==> (is_covered(pref, k, p) || (lo <= p
            < hi)),
        forall|p: int| #[trigger] is_covered(pref, k, p) ==> !(lo <= p < hi),
        0 <= n,
    ensures
        covered_count(idx, k, n) == covered_count(pref, k, n) + (if n <= lo {
            0int
        } else if n >= hi {
            hi - lo
        } else {
            n - lo
        }),
    decreases n,
{
    if n > 0 {
        lemma_count_split(idx, pref, k, n - 1, lo, hi);
        assert(is_covered(idx, k, n - 1) <==> (is_covered(pref, k, n - 1) || (lo <= n - 1 < hi)));
    }
}

/// Splitting coverage at the last index: a position is covered by `idx`
/// exactly when the prefix covers it or the last k-gram does, and prefix
/// coverage stops before `prev + k`.
proof fn lemma_covered_drop_last(idx: Seq<usize>, k: int, p: int)
    requires
        1 <= k,
        strictly_increasing(idx),
        idx.len() >= 2,
    ensures
        is_covered(idx, k, p) <==> (is_covered(idx.drop_last(), k, p) || (idx.last() <= p
            < idx.last() + k)),
        is_covered(idx.drop_last(), k, p) ==> p < idx[idx.len() - 2] + k,
{
    let pref = idx.drop_last();
    if is_covered(idx, k, p) {
        let q = choose|q: int| 0 <= q < idx.len() && #[trigger] idx[q] <= p < idx[q] + k;
        if q < idx.len() - 1 {
            assert(pref[q] == idx[q]);
            assert(is_covered(pref, k, p));
        }
    }
    if is_covered(pref, k, p) {
        let q = choose|q: int| 0 <= q < pref.len() && #[trigger] pref[q] <= p < pref[q] + k;
        assert(idx[q] == pref[q]);
        assert(is_covered(idx, k, p));
        if q < idx.len() - 2 {
            assert(idx[q] < idx[idx.len() - 2]);
        }
        assert(p < idx[idx.len() - 2] + k);
    }
    if idx.last() <= p < idx.last() + k {
        assert(idx[idx.len() - 1] <= p < idx[idx.len() - 1] + k);
        assert(is_covered(idx, k, p));
    }
}

/// LAW (span merging measures coverage): the total length of the merged
/// spans of a strictly ascending index sequence equals the number of
/// canonical positions its k-grams touch.
pub proof fn lemma_spans_cover(idx: Seq<usize>, k: int, n: int)
    requires
        1 <= k,
        strictly_increasing(idx),
        idx.len() >= 1,
        0 <= n,
        forall|j: int| 0 <= j < idx.len() ==> #[trigger] idx[j] + k <= n,
    ensures
        spans_total(spans_of(idx, k)) == covered_count(idx, k, n),
    decreases idx.len(),
{
    if idx.len() == 1 {
        let lo = idx[0] as int;
        let hi = idx[0] + k;
        let pref = idx.drop_last();
        assert forall|p: int| #[trigger] is_covered(idx, k, p) <==> (is_covered(pref, k, p) || (lo
            <= p < hi)) by {
            if is_covered(idx, k, p) {
                let q = choose|q: int| 0 <= q < idx.len() && #[trigger] idx[q] <= p < idx[q] + k;
                assert(q == 0);
            }
            if lo <= p < hi {
                assert(idx[0] <= p < idx[0] + k);
                assert(is_covered(idx, k, p));
            }
        }
        assert forall|p: int| #[trigger] is_covered(pref, k, p) implies !(lo <= p < hi) by {
            let q = choose|q: int| 0 <= q < pref.len() && #[trigger] pref[q] <= p < pref[q] + k;
        }
        lemma_count_split(idx, pref, k, n, lo, hi);
        lemma_count_empty(pref, k, n);
        assert(spans_of(idx, k) == seq![(idx[0] as int, idx[0] + k)]);
        assert(spans_of(idx, k).drop_last() =~= Seq::<(int, int)>::empty());
        assert(spans_total(Seq::<(int, int)>::empty()) == 0);
        assert(spans_of(idx, k).last() == (idx[0] as int, idx[0] + k));
        assert(spans_total(spans_of(idx, k)) == spans_total(spans_of(idx, k).drop_last()) + (
        spans_of(idx, k).last().1 - spans_of(idx, k).last().0));
        assert(spans_total(spans_of(idx, k)) == k);
        assert(idx[0] + k <= n);
    } else {
        let pref = idx.drop_last();
        assert forall|p: int, q: int| 0 <= p < q < pref.len() implies #[trigger] pref[p]
            < #[trigger] pref[q] by {
            assert(idx[p] < idx[q]);
        }
        assert forall|j: int| 0 <= j < pref.len() implies #[trigger] pref[j] + k <= n by {
            assert(idx[j] + k <= n);
        }
        lemma_spans_cover(pref, k, n);
        lemma_spans_structure(pref, k);
        assert forall|p: int| true implies (#[trigger] is_covered(idx, k, p) <==> (is_covered(
            pref,
            k,
            p,
        ) || (idx.last() <= p < idx.last() + k))) by {
            lemma_covered_drop_last(idx, k, p);
        }
        let last = idx[idx.len() - 1] as int;
        let prev = idx[idx.len() - 2] as int;
        let rest = spans_of(pref, k);
        let sp = spans_of(idx, k);
        assert(prev == pref.last() && prev < last);
        assert(last + k <= n);
        if last - prev > k - 1 {
            let lo = last;
            let hi = last + k;
            assert forall|p: int| #[trigger] is_covered(pref, k, p) implies !(lo <= p < hi) by {
                lemma_covered_drop_last(idx, k, p);
            }
            lemma_count_split(idx, pref, k, n, lo, hi);
            assert(sp == rest.push((last, last + k)));
            assert(sp.drop_last() =~= rest);
            assert(spans_total(sp) == spans_total(rest) + k);
        } else {
            let lo = prev + k;
            let hi = last + k;
            assert forall|p: int| #[trigger] is_covered(idx, k, p) <==> (is_covered(pref, k, p)
                || (lo <= p < hi)) by {
                lemma_covered_drop_last(idx, k, p);
                if lo <= p < hi {
                    assert(last <= p);
                }
                if is_covered(idx, k, p) && !is_covered(pref, k, p) {
                    assert(last <= p < last + k);
                    if p < lo {
                        assert(prev <= p < prev + k);
                        assert(pref[pref.len() - 1] == prev);
                        assert(is_covered(pref, k, p));
                    }
                }
            }
            assert forall|p: int| #[trigger] is_covered(pref, k, p) implies !(lo <= p < hi) by {
                lemma_covered_drop_last(idx, k, p);
            }
            lemma_count_split(idx, pref, k, n, lo, hi);
            assert(sp == rest.update(rest.len() - 1, (rest[rest.len() - 1].0, last + k)));
            assert(sp.drop_last() =~= rest.drop_last());
            assert(sp.last() == (rest[rest.len() - 1].0, last + k));
            assert(rest.last().1 == prev + k);
            assert(spans_total(sp) == spans_total(rest.drop_last()) + (last + k - rest[rest.len()
                - 1].0));
            assert(spans_total(rest) == spans_total(rest.drop_last()) + (prev + k - rest[rest.len()
                - 1].0));
        }
    }
}

/// Coverage grows with the index set: a subset's k-grams touch no more
/// positions than the whole set's.
pub proof fn lemma_covered_count_subset(sub: Seq<usize>, sup: Seq<usize>, k: int, n: int)
    requires
        forall|x: usize| #[trigger] sub.contains(x) ==> sup.contains(x),
        0 <= n,
    ensures
        covered_count(sub, k, n) <= covered_count(sup, k, n),
    decreases n,
{
    if n > 0 {
        lemma_covered_count_subset(sub, sup, k, n - 1);
        if is_covered(sub, k, n - 1) {
            let q = choose|q: int| 0 <= q < sub.len() && #[trigger] sub[q] <= n - 1 < sub[q] + k;
            assert(sub.contains(sub[q]));
            assert(sup.contains(sub[q]));
            let j = choose|j: int| 0 <= j < sup.len() && sup[j] == sub[q];
            assert(sup[j] <= n - 1 < sup[j] + k);
            assert(is_covered(sup, k, n - 1));
        }
    }
}

/// Merge a sorted, strictly ascending matched-index list into contiguous
/// spans: returns the span start positions and the span end positions, in
/// order, in canonical coordinates.
#[verifier::loop_isolation(false)]
pub fn get_copied_slices(idx: &Vec<usize>, k: usize) -> (r: (Vec<usize>, Vec<usize>))
    requires
        1 <= k,
        strictly_increasing(idx@),
        idx@.len() >= 1,
        forall|j: int| 0 <= j < idx@.len() ==> #[trigger] idx@[j] + k <= usize::MAX,
    ensures
        r.0@.len() == spans_of(idx@, k as int).len(),
        r.1@.len() == spans_of(idx@, k as int).len(),
        forall|j: int| 0 <= j < r.0@.len() ==> (#[trigger] r.0@[j]) as int == spans_of(
            idx@,
            k as int,
        )[j].0,
        forall|j: int| 0 <= j < r.1@.len() ==> (#[trigger] r.1@[j]) as int == spans_of(
            idx@,
            k as int,
        )[j].1,
{
    let mut slice_starts: Vec<usize> = Vec::new();
    let mut slice_ends: Vec<usize> = Vec::new();
    slice_starts.push(idx[0]);
    let mut i: usize = 1;
    while i < idx.len()
        invariant
            1 <= i <= idx@.len(),
            slice_starts@.len() == spans_of(idx@.take(i as int), k as int).len(),
            slice_ends@.len() == slice_starts@.len() - 1,
            forall|j: int| 0 <= j < slice_starts@.len() ==> (#[trigger] slice_starts@[j]) as int
                == spans_of(idx@.take(i as int), k as int)[j].0,
            forall|j: int| 0 <= j < slice_ends@.len() ==> (#[trigger] slice_ends@[j]) as int
                == spans_of(idx@.take(i as int), k as int)[j].1,
            spans_of(idx@.take(i as int), k as int).last().1 == idx@[i - 1] + k,
        decreases idx@.len() - i,
    {
        proof {
            assert(idx@.take(i + 1).drop_last() =~= idx@.take(i as int));
            assert(idx@.take(i + 1)[i as int] == idx@[i as int]);
            assert(idx@.take(i + 1)[i - 1] == idx@[i - 1]);
        }
        if idx[i] - idx[i - 1] > k - 1 {
            slice_ends.push(idx[i - 1] + k);
            slice_starts.push(idx[i]);
        }
        i = i + 1;
    }
    proof {
        assert(idx@.take(idx@.len() as int) =~= idx@);
    }
    slice_ends.push(idx[idx.len() - 1] + k);
    (slice_starts, slice_ends)
}

/// The lower bound of canonical position `pos` in the offset table: the
/// least entry index whose canonical coordinate is at least `pos`, or the
/// table length if there is none.
pub open spec fn lb_index(offs: Seq<(usize, usize)>, pos: int) -> int
    decreases offs.len(),
{
    if offs.len() == 0 {
        0
    } else if offs[0].0 >= pos {
        0
    } else {
        1 + lb_index(offs.drop_first(), pos)
    }
}

/// Translate a canonical position to an original byte offset: the byte
/// offset paired with the lower-bound entry, clamped to the last entry.
pub open spec fn translate_pos(offs: Seq<(usize, usize)>, pos: int) -> int {
    let lb = lb_index(offs, pos);
    if lb < offs.len() {
        offs[lb].1 as int
    } else {
        offs[offs.len() - 1].1 as int
    }
}

proof fn lemma_lb_props(offs: Seq<(usize, usize)>, pos: int)
    ensures
        0 <= lb_index(offs, pos) <= offs.len(),
        forall|j: int| 0 <= j < lb_index(offs, pos) ==> (#[trigger] offs[j]).0 < pos,
        lb_index(offs, pos) < offs.len() ==> offs[lb_index(offs, pos)].0 >= pos,
    decreases offs.len(),
{
    if offs.len() > 0 && offs[0].0 < pos {
        lemma_lb_props(offs.drop_first(), pos);
        let lb = lb_index(offs, pos);
        assert forall|j: int| 0 <= j < lb implies (#[trigger] offs[j]).0 < pos by {
            if j >= 1 {
                assert(offs.drop_first()[j - 1] == offs[j]);
            }
        }
        if lb < offs.len() {
            assert(offs.drop_first()[lb - 1] == offs[lb]);
        }
    }
}

/// What binary search over the offset table computes is exactly the
/// clamped lower-bound translation.
proof fn lemma_bsearch_translate(offs: Seq<(usize, usize)>, pos: usize, r: int)
    requires
        pairs_sorted(offs),
        offs.len() >= 1,
        0 <= r <= offs.len(),
        (r < offs.len() && offs[r] == (pos, 0usize)) || ((forall|j: int| 0 <= j < r ==> pair_lt(
            #[trigger] offs[j],
            (pos, 0usize),
        )) && (forall|j: int| r <= j < offs.len() ==> pair_lt((pos, 0usize), #[trigger] offs[j]))),
    ensures
        offs[if r < offs.len() {
            r
        } else {
            offs.len() - 1
        }].1 == translate_pos(offs, pos as int),
{
    lemma_lb_props(offs, pos as int);
    let lb = lb_index(offs, pos as int);
    if r < offs.len() && offs[r] == (pos, 0usize) {
        assert(lb <= r);
        if lb < r {
            assert(pair_lt(offs[lb as int], offs[r]) || offs[lb as int] == offs[r]);
        }
        assert(offs[lb].0 >= pos && offs[lb].0 <= pos && offs[lb].1 <= 0);
        assert(offs[lb].1 == offs[r].1);
    } else {
        assert forall|j: int| 0 <= j < r implies (#[trigger] offs[j]).0 < pos by {
            assert(pair_lt(offs[j], (pos, 0usize)));
        }
        assert forall|j: int| r <= j < offs.len() implies (#[trigger] offs[j]).0 >= pos by {
            assert(pair_lt((pos, 0usize), offs[j]));
        }
        if r < offs.len() {
            assert(lb == r);
        } else {
            assert(lb == offs.len());
        }
    }
}

/// Translation is monotone in the canonical position whenever the byte
/// offsets in the table are non-decreasing.
proof fn lemma_translate_monotone(offs: Seq<(usize, usize)>, p1: int, p2: int)
    requires
        offs.len() >= 1,
        p1 <= p2,
        forall|p: int, q: int| 0 <= p < q < offs.len() ==> (#[trigger] offs[p]).1
            <= (#[trigger] offs[q]).1,
    ensures
        translate_pos(offs, p1) <= translate_pos(offs, p2),
{
    lemma_lb_props(offs, p1);
    lemma_lb_props(offs, p2);
    let lb1 = lb_index(offs, p1);
    let lb2 = lb_index(offs, p2);
    if lb1 > lb2 {
        assert(offs[lb2].0 < p1);
        assert(offs[lb2].0 >= p2);
    }
    let i1 = if lb1 < offs.len() { lb1 } else { offs.len() - 1 };
    let i2 = if lb2 < offs.len() { lb2 } else { offs.len() - 1 };
    if i1 < i2 {
        assert(offs[i1].1 <= offs[i2].1);
    }
}

/// The two coverage counts a similarity ratio is made of: the ratio itself
/// is `matched / selected`, left as an exact pair so no precision is lost.
#[derive(Clone, Copy, Debug, PartialEq, Eq, Structural)]
pub struct Similarity {
    /// Canonical positions covered by the merged matched spans.
    pub matched: usize,
    /// Canonical positions covered by the document's own selected k-grams.
    pub selected: usize,
}

/// Total length of the spans given as parallel start/end lists.
pub open spec fn sum_lengths(b: Seq<usize>, e: Seq<usize>) -> int
    decreases b.len(),
{
    if b.len() == 0 {
        0
    } else {
        sum_lengths(b.drop_last(), e.drop_last()) + (e.last() - b.last())
    }
}

proof fn lemma_sum_matches_spans(b: Seq<usize>, e: Seq<usize>, sp: Seq<(int, int)>)
    requires
        b.len() == sp.len(),
        e.len() == sp.len(),
        forall|j: int| 0 <= j < sp.len() ==> (#[trigger] b[j]) as int == sp[j].0,
        forall|j: int| 0 <= j < sp.len() ==> (#[trigger] e[j]) as int == sp[j].1,
    ensures
        sum_lengths(b, e) == spans_total(sp),
    decreases sp.len(),
{
    if sp.len() > 0 {
        assert forall|j: int| 0 <= j < sp.drop_last().len() implies (#[trigger] b.drop_last()[j])
            as int == sp.drop_last()[j].0 && (e.drop_last()[j]) as int == sp.drop_last()[j].1 by {
            assert(b[j] as int == sp[j].0 && e[j] as int == sp[j].1);
        }
        lemma_sum_matches_spans(b.drop_last(), e.drop_last(), sp.drop_last());
    }
}

proof fn lemma_count_nonneg(sel: Seq<usize>, k: int, n: int)
    ensures
        covered_count(sel, k, n) >= 0,
    decreases n,
{
    if n > 0 {
        lemma_count_nonneg(sel, k, n - 1);
    }
}

/// Per-document similarity: the number of canonical positions covered by
/// the merged matched spans, over the number covered by the document's own
/// selected k-grams.
#[verifier::loop_isolation(false)]
pub fn calc_similarity(
    fp: &DocumentFingerprint,
    slice_begins: &Vec<usize>,
    slice_ends: &Vec<usize>,
) -> (r: Similarity)
    requires
        fp.wf(),
        slice_begins@.len() == slice_ends@.len(),
        forall|j: int| 0 <= j < slice_begins@.len() ==> #[trigger] slice_begins@[j]
            <= slice_ends@[j],
        forall|p: int, q: int| 0 <= p < q < slice_begins@.len() ==> (#[trigger] slice_ends@[p])
            <= (#[trigger] slice_begins@[q]),
    ensures
        r.matched == sum_lengths(slice_begins@, slice_ends@),
        r.selected == covered_count(
            fp.selected_indices@,
            fp.k as int,
            fp.filtered_code@.len() as int,
        ),
{
    let selected_code_count: usize = fp.selected_coverage();
    let mut matched: usize = 0;
    let mut i: usize = 0;
    while i < slice_begins.len()
        invariant
            0 <= i <= slice_begins@.len(),
            matched == sum_lengths(slice_begins@.take(i as int), slice_ends@.take(i as int)),
            i >= 1 ==> matched <= slice_ends@[i - 1],
            i == 0 ==> matched == 0,
        decreases slice_begins@.len() - i,
    {
        matched = matched + (slice_ends[i] - slice_begins[i]);
        proof {
            assert(slice_begins@.take(i + 1).drop_last() =~= slice_begins@.take(i as int));
            assert(slice_ends@.take(i + 1).drop_last() =~= slice_ends@.take(i as int));
            assert(slice_begins@.take(i + 1).last() == slice_begins@[i as int]);
            assert(slice_ends@.take(i + 1).last() == slice_ends@[i as int]);
        }
        i = i + 1;
    }
    proof {
        assert(slice_begins@.take(slice_begins@.len() as int) =~= slice_begins@);
        assert(slice_ends@.take(slice_ends@.len() as int) =~= slice_ends@);
    }
    Similarity { matched, selected: selected_code_count }
}

/// The matched indices of the first document against the second: those of
/// its selected indices whose k-gram hash occurs anywhere in the second
/// document's hash sequence.
pub open spec fn matched_indices_of(a: DocumentFingerprint, b: DocumentFingerprint) -> Seq<usize> {
    matching_of(a.selected_indices@, a.hashes@, b.hashes@)
}

/// The merged matched spans of the first document against the second, in
/// canonical coordinates.
pub open spec fn matched_spans_of(a: DocumentFingerprint, b: DocumentFingerprint) -> Seq<
    (int, int),
> {
    spans_of(matched_indices_of(a, b), a.k as int)
}

/// A document's selected coverage: the denominator of its similarity.
pub open spec fn doc_selected_coverage(fp: DocumentFingerprint) -> int {
    covered_count(fp.selected_indices@, fp.k as int, fp.filtered_code@.len() as int)
}

/// The reported byte ranges are the translations of the merged spans'
/// endpoints through the document's offset table.
pub open spec fn spans_translated(
    fp: DocumentFingerprint,
    sp: Seq<(int, int)>,
    out: Seq<(usize, usize)>,
) -> bool {
    &&& out.len() == sp.len()
    &&& forall|j: int| 0 <= j < out.len() ==> (#[trigger] out[j]).0 == translate_pos(
        fp.offsets@,
        sp[j].0,
    ) && out[j].1 == translate_pos(fp.offsets@, sp[j].1)
}

} // verus!

verus! {

/// Compare two fingerprints built with the same noise threshold.
///
/// Fails with `ThresholdMismatch` exactly when the thresholds differ, and
/// with `DegenerateInput` exactly when either document's selected coverage
/// is zero. Otherwise returns, per document, the matched original byte
/// ranges and the exact similarity ratio. Every reported range lies inside
/// the document and has its start at or before its end; every similarity is
/// at most one; and a document whose canonical text equals the other's —
/// itself, or a consistent renaming of it — scores exactly one.
#[verifier::loop_isolation(false)]
pub fn compare_fingerprints(fp1: &DocumentFingerprint, fp2: &DocumentFingerprint) -> (r: Result<
    (Vec<(usize, usize)>, Similarity, Vec<(usize, usize)>, Similarity),
    DetectorError,
>)
    requires
        fp1.wf(),
        fp2.wf(),
    ensures
        match r {
            Result::Err(e) => {
                &&& (e == DetectorError::ThresholdMismatch <==> fp1.k != fp2.k)
                &&& (e == DetectorError::ThresholdMismatch || e == DetectorError::DegenerateInput)
                &&& (e == DetectorError::DegenerateInput ==> fp1.k == fp2.k && (
                doc_selected_coverage(*fp1) == 0 || doc_selected_coverage(*fp2) == 0))
            },
            Result::Ok(out) => {
                &&& fp1.k == fp2.k
                &&& doc_selected_coverage(*fp1) > 0 && doc_selected_coverage(*fp2) > 0
                &&& spans_translated(*fp1, matched_spans_of(*fp1, *fp2), out.0@)
                &&& out.1.matched as int == spans_total(matched_spans_of(*fp1, *fp2))
                &&& out.1.selected as int == doc_selected_coverage(*fp1)
                &&& out.1.matched <= out.1.selected
                &&& forall|j: int| 0 <= j < out.0@.len() ==> (#[trigger] out.0@[j]).0
                    <= out.0@[j].1 <= fp1.code@.len()
                &&& spans_translated(*fp2, matched_spans_of(*fp2, *fp1), out.2@)
                &&& out.3.matched as int == spans_total(matched_spans_of(*fp2, *fp1))
                &&& out.3.selected as int == doc_selected_coverage(*fp2)
                &&& out.3.matched <= out.3.selected
                &&& forall|j: int| 0 <= j < out.2@.len() ==> (#[trigger] out.2@[j]).0
                    <= out.2@[j].1 <= fp2.code@.len()
                &&& fp1.filtered_code@ == fp2.filtered_code@ ==> out.1.matched == out.1.selected
                    && out.3.matched == out.3.selected
            },
        },
        r is Ok <==> (fp1.k == fp2.k && doc_selected_coverage(*fp1) > 0 && doc_selected_coverage(
            *fp2,
        ) > 0),
{
    if fp1.k != fp2.k {
        return Result::Err(DetectorError::ThresholdMismatch);
    }
    let k: usize = fp1.k;

    let cov1: usize = fp1.selected_coverage();
    let cov2: usize = fp2.selected_coverage();
    if cov1 == 0 || cov2 == 0 {
        return Result::Err(DetectorError::DegenerateInput);
    }

    let matched_pair: (Vec<usize>, Vec<usize>) = find_matching_hashes(
        &fp1.hashes,
        &fp1.selected_indices,
        &fp2.hashes,
        &fp2.selected_indices,
    );
    let matched_indices1: Vec<usize> = matched_pair.0;
    let matched_indices2: Vec<usize> = matched_pair.1;
    proof {
        lemma_matching_props(fp1.selected_indices@, fp1.hashes@, fp2.hashes@);
        lemma_matching_props(fp2.selected_indices@, fp2.hashes@, fp1.hashes@);
    }

    let out1: (Vec<(usize, usize)>, Similarity) = translate_and_score(fp1, &matched_indices1, k);
    let out2: (Vec<(usize, usize)>, Similarity) = translate_and_score(fp2, &matched_indices2, k);

    proof {
        if fp1.filtered_code@ == fp2.filtered_code@ {
            assert(fp1.hashes@ =~= fp2.hashes@);
            lemma_matching_self(fp1.selected_indices@, fp1.hashes@);
            lemma_matching_self(fp2.selected_indices@, fp2.hashes@);
        }
    }
    Result::Ok((out1.0, out1.1, out2.0, out2.1))
}

/// One document's half of a comparison: merge its matched indices into
/// spans, translate them to original byte ranges, and score them against
/// its selected coverage.
#[verifier::loop_isolation(false)]
fn translate_and_score(fp: &DocumentFingerprint, matched: &Vec<usize>, k: usize) -> (r: (
    Vec<(usize, usize)>,
    Similarity,
))
    requires
        fp.wf(),
        k == fp.k,
        strictly_increasing(matched@),
        forall|j: int| 0 <= j < matched@.len() ==> #[trigger] matched@[j] < fp.hashes@.len(),
        forall|x: usize| #[trigger] matched@.contains(x) ==> fp.selected_indices@.contains(x),
    ensures
        spans_translated(*fp, spans_of(matched@, k as int), r.0@),
        r.1.matched as int == spans_total(spans_of(matched@, k as int)),
        r.1.selected as int == doc_selected_coverage(*fp),
        r.1.matched <= r.1.selected,
        forall|j: int| 0 <= j < r.0@.len() ==> (#[trigger] r.0@[j]).0 <= r.0@[j].1
            <= fp.code@.len(),
        matched@ == fp.selected_indices@ ==> r.1.matched == r.1.selected,
{
    let ghost kk: int = k as int;
    let clen_exec: usize = fp.filtered_code.len();
    let ghost clen: int = fp.filtered_code@.len() as int;
    proof {
        assert(clen_exec as int == clen);
        lemma_count_nonneg(fp.selected_indices@, kk, clen);
        assert forall|j: int| 0 <= j < matched@.len() implies #[trigger] matched@[j] + k
            <= clen by {
            assert(matched@[j] < fp.hashes@.len());
        }
        lemma_count_nonneg(matched@, kk, clen);
    }
    let mut begins: Vec<usize> = Vec::new();
    let mut ends: Vec<usize> = Vec::new();
    if matched.len() > 0 {
        let slices: (Vec<usize>, Vec<usize>) = get_copied_slices(matched, k);
        begins = slices.0;
        ends = slices.1;
        proof {
            lemma_spans_structure(matched@, kk);
            lemma_spans_cover(matched@, kk, clen);
        }
    } else {
        proof {
            lemma_count_empty(matched@, kk, clen);
        }
    }
    let ghost sp: Seq<(int, int)> = spans_of(matched@, kk);
    proof {
        if matched@.len() == 0 {
            assert(sp =~= Seq::<(int, int)>::empty());
            assert(spans_total(sp) == 0);
        }
        lemma_sum_matches_spans(begins@, ends@, sp);
        lemma_covered_count_subset(matched@, fp.selected_indices@, kk, clen);
    }

    let olen: usize = fp.offsets.len();
    let mut ranges: Vec<(usize, usize)> = Vec::new();
    let mut i: usize = 0;
    while i < begins.len()
        invariant
            0 <= i <= begins@.len(),
            ranges@.len() == i,
            forall|j: int| 0 <= j < i ==> (#[trigger] ranges@[j]).0 == translate_pos(
                fp.offsets@,
                sp[j].0,
            ) && ranges@[j].1 == translate_pos(fp.offsets@, sp[j].1),
            forall|j: int| 0 <= j < i ==> (#[trigger] ranges@[j]).0 <= ranges@[j].1
                <= fp.code@.len(),
        decreases begins@.len() - i,
    {
        let s: usize = begins[i];
        let e: usize = ends[i];
        let s_i0: usize = binary_search(&(s, 0), &fp.offsets);
        let s_i: usize = if s_i0 <= olen - 1 {
            s_i0
        } else {
            olen - 1
        };
        let e_i0: usize = binary_search(&(e, 0), &fp.offsets);
        let e_i: usize = if e_i0 <= olen - 1 {
            e_i0
        } else {
            olen - 1
        };
        proof {
            lemma_bsearch_translate(fp.offsets@, s, s_i0 as int);
            lemma_bsearch_translate(fp.offsets@, e, e_i0 as int);
            lemma_translate_monotone(fp.offsets@, s as int, e as int);
        }
        let ns: usize = fp.offsets[s_i].1;
        let ne: usize = fp.offsets[e_i].1;
        ranges.push((ns, ne));
        i = i + 1;
    }
    let sim: Similarity = calc_similarity(fp, &begins, &ends);
    (ranges, sim)
}

} // verus!

verus! {

/// LAW (determinism): fingerprinting fixes every derived component. Two
/// fingerprints standing in the generation relation to the same document and
/// thresholds have identical canonical text, offset table, hash sequence and
/// selected indices.
pub proof fn lemma_fingerprint_deterministic(
    fp1: DocumentFingerprint,
    fp2: DocumentFingerprint,
    code: Seq<u8>,
    items: Seq<TreeItem>,
    t: int,
    k: int,
)
    requires
        1 <= k <= t,
        fingerprint_of(fp1, code, items, t, k),
        fingerprint_of(fp2, code, items, t, k),
    ensures
        fp1.filtered_code@ == fp2.filtered_code@,
        fp1.offsets@ == fp2.offsets@,
        fp1.hashes@ == fp2.hashes@,
        fp1.selected_indices@ == fp2.selected_indices@,
{
    assert(fp1.filtered_code@ == fp2.filtered_code@);
    assert forall|i: int| 0 <= i < fp1.offsets@.len() implies fp1.offsets@[i]
        == fp2.offsets@[i] by {
        if i > 0 {
            assert(fp1.offsets@[i].0 == canonical_of_items(items.take(i)).len());
            assert(fp2.offsets@[i].0 == canonical_of_items(items.take(i)).len());
        }
    }
    assert(fp1.offsets@ =~= fp2.offsets@);
    assert(fp1.hashes@.len() == fp2.hashes@.len());
    assert(fp1.hashes@ =~= fp2.hashes@);
    lemma_winnowed_unique(fp1.hashes@, t - k + 1, fp1.selected_indices@, fp2.selected_indices@);
}

/// LAW (winnow guarantee): in a generated fingerprint, every contiguous
/// canonical-text region of at least the guarantee threshold `t` contains
/// the start of at least one selected k-gram.
pub proof fn lemma_fingerprint_guarantee(
    fp: DocumentFingerprint,
    code: Seq<u8>,
    items: Seq<TreeItem>,
    t: int,
    k: int,
    p: int,
)
    requires
        1 <= k <= t,
        fingerprint_of(fp, code, items, t, k),
        0 <= p,
        p + t <= fp.filtered_code@.len(),
    ensures
        exists|j: int|
            0 <= j < fp.selected_indices@.len() && p <= #[trigger] fp.selected_indices@[j] < p + (t
                - k + 1),
{
    let w = t - k + 1;
    assert(fp.hashes@.len() == fp.filtered_code@.len() - k + 1);
    crate::algorithms::lemma_winnow_guarantee(fp.hashes@, w, fp.selected_indices@, p);
}

/// Two tree leaves that agree on everything classification reads, and on
/// the token text wherever the token is not an identifier. This is the
/// relation between a document and a consistent renaming of it.
pub open spec fn rename_related(a: TreeItem, b: TreeItem) -> bool {
    &&& a.kind@ == b.kind@
    &&& a.field@ == b.field@
    &&& (a.parent_kind is Some <==> b.parent_kind is Some)
    &&& (a.parent_kind is Some ==> a.parent_kind->0@ == b.parent_kind->0@)
    &&& (a.grandparent_kind is Some <==> b.grandparent_kind is Some)
    &&& (a.grandparent_kind is Some ==> a.grandparent_kind->0@ == b.grandparent_kind->0@)
    &&& (spec_classify(a) == TokenKind::Text ==> a.text@ == b.text@)
}

/// LAW (renaming invariance): two leaf streams that differ only in the
/// texts of identifier tokens — the new names may even differ in length,
/// shifting every byte offset — normalize to identical canonical text.
/// Their fingerprints therefore carry identical hash sequences and selected
/// indices, and comparing them scores similarity one in both directions.
pub proof fn lemma_renaming_invariance(items1: Seq<TreeItem>, items2: Seq<TreeItem>)
    requires
        items1.len() == items2.len(),
        forall|i: int| 0 <= i < items1.len() ==> rename_related(
            #[trigger] items1[i],
            #[trigger] items2[i],
        ),
    ensures
        canonical_of_items(items1) == canonical_of_items(items2),
    decreases items1.len(),
{
    if items1.len() > 0 {
        assert forall|i: int| 0 <= i < items1.drop_last().len() implies rename_related(
            #[trigger] items1.drop_last()[i],
            #[trigger] items2.drop_last()[i],
        ) by {
            assert(rename_related(items1[i], items2[i]));
        }
        lemma_renaming_invariance(items1.drop_last(), items2.drop_last());
        let a = items1[items1.len() - 1];
        let b = items2[items2.len() - 1];
        assert(rename_related(a, b));
        crate::tokenize::lemma_classify_ignores_text(a, b);
        assert(item_emission(a) == item_emission(b));
    }
}

} // verus!
