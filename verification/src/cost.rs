//! What it costs to leave a token unpaired, and to pair two tokens.
//!
//! Costs are whole numbers of a unit of which [`COST_ONE`] make up one
//! whole, so that sums and comparisons are exact. Where a cost is no whole
//! number of units, the likeness of two lengths is rounded up to the unit,
//! and a discounted cost down.

use vstd::prelude::*;
use crate::text::{
    byte_len, char_is_alphanumeric, contains, ends_with, is_alphanumeric, is_substring_of,
    lemma_byte_len_positive, starts_with, trim, trimmed,
};
use crate::token::{normalized, TokenInfo};

verus! {

/// One whole of cost.
pub const COST_ONE: u128 = 10_000_000;

/// Cost of leaving a token with a letter or a digit in it unpaired.
pub const GAP_WORD: u128 = 10_000_000;

/// Cost of leaving a token of punctuation or whitespace unpaired.
pub const GAP_OTHER: u128 = 1_000_000;

/// Cost of pairing two tokens whose texts differ and whose keys are equal.
pub const SAME_KEY: u128 = 100_000;

/// Cost of pairing two tokens whose keys differ only in the whitespace
/// around them.
pub const SAME_TRIMMED_KEY: u128 = 200_000;

/// What each step of position adds to the cost of a pair.
pub const POSITION_STEP: u128 = 100;

/// Some character of `text` is a letter or a digit.
pub open spec fn has_alphanumeric(text: Seq<char>) -> bool {
    exists|k: int| 0 <= k < text.len() && char_is_alphanumeric(#[trigger] text[k])
}

/// The cost of leaving a token with this text unpaired.
pub open spec fn gap_cost_of(text: Seq<char>) -> u128 {
    if has_alphanumeric(text) {
        GAP_WORD
    } else {
        GAP_OTHER
    }
}

/// The cost of leaving `token` unpaired: much for a token that holds a
/// letter or a digit, little for any other.
pub fn gap_cost(token: &TokenInfo) -> (cost: u128)
    ensures
        cost == gap_cost_of(token.text@),
{
    broadcast use vstd::string::group_string_axioms;

    for c in it: token.text.as_str().chars()
        invariant
            it.seq() == token.text@,
            forall|k: int| 0 <= k < it.index() ==> !char_is_alphanumeric(#[trigger] token.text@[k]),
    {
        if is_alphanumeric(c) {
            assert(char_is_alphanumeric(token.text@[it.index()]));
            return GAP_WORD;
        }
    }
    GAP_OTHER
}

/// The tiebreak of a pair: it grows with the position of the pair, so that
/// of two pairings that cost the same otherwise the earlier one is cheaper.
pub open spec fn position_cost(i: nat, j: nat) -> nat {
    (i + j) * POSITION_STEP as nat
}

/// How alike two lengths are, up to [`COST_ONE`] for equal lengths: twice
/// the shorter over the sum of both, rounded up to the unit, so that it is
/// nothing only where one of the lengths is.
pub open spec fn length_similarity(la: nat, lb: nat) -> nat {
    ((2 * vstd::math::min(la as int, lb as int) * COST_ONE + (la + lb) - 1) / (la + lb) as int) as nat
}

/// One of the keys begins or ends with the other, or, where both take more
/// than two bytes, holds the other.
pub open spec fn overlapping(x: Seq<char>, y: Seq<char>) -> bool {
    ||| y.is_prefix_of(x)
    ||| y.is_suffix_of(x)
    ||| x.is_prefix_of(y)
    ||| x.is_suffix_of(y)
    ||| (byte_len(x) > 2 && byte_len(y) > 2 && (is_substring_of(y, x) || is_substring_of(x, y)))
}

/// What pairing two tokens costs before the tiebreak is added, given the
/// text and the key of each.
pub open spec fn content_cost(
    a_text: Seq<char>,
    a_key: Seq<char>,
    b_text: Seq<char>,
    b_key: Seq<char>,
) -> nat {
    if a_text == b_text {
        0
    } else if a_key == b_key {
        SAME_KEY as nat
    } else if trimmed(a_key) == trimmed(b_key) {
        SAME_TRIMMED_KEY as nat
    } else if overlapping(a_key, b_key) {
        (COST_ONE - length_similarity(byte_len(a_key), byte_len(b_key))) as nat
    } else {
        (2 * COST_ONE - length_similarity(byte_len(a_key), byte_len(b_key))) as nat
    }
}

/// The cost of pairing source token `al` at index `i` with reference token
/// `bl` at index `j`.
pub open spec fn pairwise_cost_of(i: nat, j: nat, al: TokenInfo, bl: TokenInfo) -> nat {
    content_cost(al.text@, al.normalized@, bl.text@, bl.normalized@) + position_cost(i, j)
}

/// Two tokens that differ in their texts and not in their keys, as those
/// that differ in case or script only, cost [`SAME_KEY`] and the tiebreak
/// to pair, wherever they stand.
pub proof fn lemma_same_key_cost(i: nat, j: nat, al: TokenInfo, bl: TokenInfo)
    requires
        al.text@ != bl.text@,
        al.normalized@ == bl.normalized@,
    ensures
        pairwise_cost_of(i, j, al, bl) == SAME_KEY + position_cost(i, j),
{
}

/// Similarity never exceeds one whole, and is more than nothing for two
/// lengths that are.
pub proof fn lemma_length_similarity_bound(la: nat, lb: nat)
    requires
        la + lb > 0,
    ensures
        length_similarity(la, lb) <= COST_ONE,
        la > 0 && lb > 0 ==> length_similarity(la, lb) >= 1,
{
    let m = vstd::math::min(la as int, lb as int);
    let d = (la + lb) as int;
    let x = 2 * m * COST_ONE;
    assert(2 * m <= d);
    assert(0 <= x <= d * COST_ONE) by (nonlinear_arith)
        requires
            0 <= 2 * m <= d,
            x == 2 * m * COST_ONE,
    ;
    assert((x + d - 1) / d <= COST_ONE) by (nonlinear_arith)
        requires
            0 <= x <= d * COST_ONE,
            d > 0,
    ;
    assert((x + d - 1) / d >= 0) by (nonlinear_arith)
        requires
            0 <= x,
            d > 0,
    ;
    if la > 0 && lb > 0 {
        assert(x >= 1) by (nonlinear_arith)
            requires
                m >= 1,
                x == 2 * m * COST_ONE,
        ;
        assert((x + d - 1) / d >= 1) by (nonlinear_arith)
            requires
                x >= 1,
                d > 0,
        ;
    }
}

/// Pairing two texts costs less than two wholes before the tiebreak is
/// added.
pub proof fn lemma_content_cost_bound(a: Seq<char>, a_key: Seq<char>, b: Seq<char>, b_key: Seq<char>)
    ensures
        content_cost(a, a_key, b, b_key) < 2 * COST_ONE,
{
    if a != b && a_key != b_key && trimmed(a_key) != trimmed(b_key) {
        if a_key.len() == 0 {
            assert(a_key.is_prefix_of(b_key));
            assert(b_key.len() > 0) by {
                if b_key.len() == 0 {
                    assert(a_key =~= b_key);
                }
            }
            lemma_byte_len_positive(b_key);
        } else if b_key.len() == 0 {
            assert(b_key.is_prefix_of(a_key));
            lemma_byte_len_positive(a_key);
        } else {
            lemma_byte_len_positive(a_key);
            lemma_byte_len_positive(b_key);
        }
        lemma_length_similarity_bound(byte_len(a_key), byte_len(b_key));
    }
}

/// The cost of pairing source token `al` at index `i` with reference token
/// `bl` at index `j`: nothing but the tiebreak for equal texts, little for
/// equal keys, and for others the more the less alike they are.
pub fn pairwise_cost(i: usize, j: usize, al: &TokenInfo, bl: &TokenInfo) -> (cost: u128)
    ensures
        cost == pairwise_cost_of(i as nat, j as nat, *al, *bl),
        position_cost(i as nat, j as nat) <= cost < 2 * COST_ONE + position_cost(
            i as nat,
            j as nat,
        ),
{
    proof {
        lemma_content_cost_bound(al.text@, al.normalized@, bl.text@, bl.normalized@);
    }
    let pos_term: u128 = (i as u128 + j as u128) * POSITION_STEP;
    if al.text == bl.text {
        return pos_term;
    } else if al.normalized == bl.normalized {
        return SAME_KEY + pos_term;
    }
    let alower = al.normalized.as_str();
    let blower = bl.normalized.as_str();
    let atrim: String = trim(alower).to_owned();
    let btrim: String = trim(blower).to_owned();
    if atrim == btrim {
        return SAME_TRIMMED_KEY + pos_term;
    }
    let la: usize = alower.as_bytes().len();
    let lb: usize = blower.as_bytes().len();
    proof {
        broadcast use vstd::slice::group_slice_axioms;

        assert(la == byte_len(alower@));
        assert(lb == byte_len(blower@));
        if alower@.len() > 0 {
            lemma_byte_len_positive(alower@);
        } else {
            assert(blower@.len() > 0) by {
                if blower@.len() == 0 {
                    assert(alower@ =~= blower@);
                }
            }
            lemma_byte_len_positive(blower@);
        }
        lemma_length_similarity_bound(la as nat, lb as nat);
    }
    let shorter: u128 = if la <= lb {
        la as u128
    } else {
        lb as u128
    };
    let both: u128 = la as u128 + lb as u128;
    let length_term: u128 = (2 * shorter * COST_ONE + both - 1) / both;
    if starts_with(alower, blower) || ends_with(alower, blower) || starts_with(blower, alower)
        || ends_with(blower, alower) || (la > 2 && lb > 2 && (contains(alower, blower) || contains(
        blower,
        alower,
    ))) {
        return COST_ONE - length_term + pos_term;
    }
    2 * COST_ONE - length_term + pos_term
}

/// A cost scaled to 99 hundredths, rounded down.
pub open spec fn discounted(cost: nat) -> nat {
    cost * 99 / 100
}

/// The cost of pairing the source text `a` at index `i` with the reference
/// text `b` at index `j` when texts are aligned.
pub open spec fn text_pair_cost_of(i: nat, j: nat, a: Seq<char>, b: Seq<char>) -> nat {
    discounted(content_cost(a, normalized(a), b, normalized(b)) + position_cost(i, j))
}

/// The cost of pairing two tokens when texts are aligned: that of
/// [`pairwise_cost`], scaled down a little, so that pairing two tokens that
/// differ costs less than leaving both unpaired.
pub fn text_pair_cost(i: usize, j: usize, al: &TokenInfo, bl: &TokenInfo) -> (cost: u128)
    ensures
        cost == discounted(pairwise_cost_of(i as nat, j as nat, *al, *bl)),
        al.wf() && bl.wf() ==> cost == text_pair_cost_of(i as nat, j as nat, al.text@, bl.text@),
{
    let full = pairwise_cost(i, j, al, bl);
    full * 99 / 100
}

} // verus!
