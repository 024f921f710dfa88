//! Aligning a sequence of texts with itself.
//!
//! The tiebreak of a pair grows with its position, and the cost of leaving
//! a token unpaired does not. So a sequence aligned with itself pairs every
//! token with itself as long as no token stands so far back that leaving it
//! out on both sides is cheaper than its tiebreak.

use vstd::prelude::*;
use crate::align::{text_alignment, text_costs, Costs, Pair, Step};
use crate::cost::{content_cost, gap_cost_of, lemma_content_cost_bound, text_pair_cost_of};
use crate::token::normalized;

verus! {

/// The sum of the numbers below `n`.
pub open spec fn triangle(n: nat) -> nat
    decreases n,
{
    if n == 0 {
        0
    } else {
        triangle((n - 1) as nat) + (n - 1) as nat
    }
}

/// The alignment that pairs each of `n` indices with itself.
pub open spec fn identity_alignment(n: nat) -> Seq<Pair> {
    Seq::new(n, |k: int| (Some(k as usize), Some(k as usize)))
}

/// Leaving the token at any index unpaired costs at least 99 units for
/// each index before it.
pub open spec fn gaps_outweigh_position(texts: Seq<Seq<char>>) -> bool {
    forall|k: int| 0 <= k < texts.len() ==> 99 * k <= #[trigger] gap_cost_of(texts[k])
}

/// Costs for two sequences of one length in which pairing an index with
/// itself costs 99 units for each of the two indices, pairing any two
/// indices costs no less than that for each, and leaving an index unpaired
/// costs no less than that for one.
pub open spec fn favours_diagonal(c: Costs, n: nat) -> bool {
    &&& c.wf()
    &&& c.delete.len() == n
    &&& c.insert.len() == n
    &&& forall|k: int| 0 <= k < n ==> 99 * k <= #[trigger] c.delete[k]
    &&& forall|k: int| 0 <= k < n ==> 99 * k <= #[trigger] c.insert[k]
    &&& forall|i: int, j: int|
        0 <= i < n && 0 <= j < n ==> 99 * (i + j) <= #[trigger] c.pair[i][j]
    &&& forall|i: int| 0 <= i < n ==> (#[trigger] c.pair[i])[i] == 198 * i
}

/// With costs that favour the diagonal, no prefixes align for less than
/// the tiebreaks of all their indices.
proof fn lemma_total_at_least(c: Costs, n: nat, i: nat, j: nat)
    requires
        favours_diagonal(c, n),
        i <= n,
        j <= n,
    ensures
        c.total(i, j) >= 99 * (triangle(i) + triangle(j)),
        i > 0 && j > 0 ==> c.by_match(i, j) >= 99 * (triangle(i) + triangle(j)),
        i > 0 ==> c.by_delete(i, j) >= 99 * (triangle(i) + triangle(j)),
        j > 0 ==> c.by_insert(i, j) >= 99 * (triangle(i) + triangle(j)),
    decreases i + j,
{
    if i > 0 {
        lemma_total_at_least(c, n, (i - 1) as nat, j);
        assert(99 * (i - 1) <= c.delete[i - 1]);
    }
    if j > 0 {
        lemma_total_at_least(c, n, i, (j - 1) as nat);
        assert(99 * (j - 1) <= c.insert[j - 1]);
    }
    if i > 0 && j > 0 {
        lemma_total_at_least(c, n, (i - 1) as nat, (j - 1) as nat);
        assert(99 * ((i - 1) + (j - 1)) <= c.pair[i - 1][j - 1]);
    }
}

/// With costs that favour the diagonal, two equal prefixes align index by
/// index.
proof fn lemma_diagonal_prefix(c: Costs, n: nat, i: nat)
    requires
        favours_diagonal(c, n),
        i <= n,
        n <= usize::MAX,
    ensures
        c.total(i, i) == 198 * triangle(i),
        c.alignment_of(i, i) == identity_alignment(i),
    decreases i,
{
    if i == 0 {
        assert(c.alignment_of(0, 0) =~= identity_alignment(0));
    } else {
        let p = (i - 1) as nat;
        lemma_diagonal_prefix(c, n, p);
        lemma_total_at_least(c, n, i, i);
        assert(c.pair[i - 1][i - 1] == 198 * (i - 1));
        assert(c.by_match(i, i) == 198 * triangle(i));
        assert(c.step(i, i) == Step::Match);
        assert(c.alignment_of(i, i) =~= identity_alignment(i));
    }
}

/// With costs that favour the diagonal, the two sequences align index by
/// index.
pub proof fn lemma_diagonal_alignment(c: Costs, n: nat)
    requires
        favours_diagonal(c, n),
        n <= usize::MAX,
    ensures
        c.alignment() == identity_alignment(n),
{
    lemma_diagonal_prefix(c, n, n);
}

/// A sequence of texts aligned with itself pairs every index with itself,
/// provided that leaving any of its tokens unpaired costs at least 99 units
/// for each index before it. That holds of every sequence of up to 10102
/// tokens, and of every sequence of up to 101011 tokens whose tokens from
/// index 10102 on each hold a letter or a digit.
pub proof fn lemma_identity_alignment(texts: Seq<Seq<char>>)
    requires
        texts.len() <= usize::MAX,
        gaps_outweigh_position(texts),
    ensures
        text_alignment(texts, texts) == identity_alignment(texts.len()),
{
    let c = text_costs(texts, texts);
    let n = texts.len();
    assert(favours_diagonal(c, n)) by {
        assert forall|k: int| 0 <= k < n implies 99 * k <= #[trigger] c.delete[k] by {
            assert(c.delete[k] == gap_cost_of(texts[k]));
        }
        assert forall|k: int| 0 <= k < n implies 99 * k <= #[trigger] c.insert[k] by {
            assert(c.insert[k] == gap_cost_of(texts[k]));
        }
        assert forall|i: int, j: int| 0 <= i < n && 0 <= j < n implies 99 * (i + j)
            <= #[trigger] c.pair[i][j] by {
            lemma_pair_cost(texts, i, j);
        }
        assert forall|i: int| 0 <= i < n implies (#[trigger] c.pair[i])[i] == 198 * i by {
            lemma_pair_cost(texts, i, i);
        }
    }
    lemma_diagonal_alignment(c, n);
}

/// What pairing two tokens of such a sequence costs at least, and what
/// pairing a token with itself costs.
proof fn lemma_pair_cost(texts: Seq<Seq<char>>, i: int, j: int)
    requires
        gaps_outweigh_position(texts),
        0 <= i < texts.len(),
        0 <= j < texts.len(),
    ensures
        99 * (i + j) <= text_costs(texts, texts).pair[i][j],
        i == j ==> text_costs(texts, texts).pair[i][j] == 198 * i,
{
    let a = texts[i];
    let b = texts[j];
    let content = content_cost(a, normalized(a), b, normalized(b));
    let cost = text_pair_cost_of(i as nat, j as nat, a, b);
    lemma_content_cost_bound(a, normalized(a), b, normalized(b));
    assert(99 * i <= gap_cost_of(texts[i]));
    assert(99 * j <= gap_cost_of(texts[j]));
    assert(i <= 200_000 && j <= 200_000);
    assert(cost == (content + (i + j) * 100) * 99 / 100);
    assert(cost <= u128::MAX);
    assert(text_costs(texts, texts).pair[i][j] == cost as u128);
    assert(cost >= 99 * (i + j)) by {
        assert(((i + j) * 100) * 99 / 100 == 99 * (i + j));
    }
    if i == j {
        assert(content == 0);
        assert(((i + i) * 100) * 99 / 100 == 198 * i);
    }
}

/// An alignment that pairs index with index was reached by pairing at
/// every step.
proof fn lemma_diagonal_steps(c: Costs, n: nat, i: nat)
    requires
        1 <= i <= n,
        n <= usize::MAX,
        c.alignment_of(n, n) == identity_alignment(n),
    ensures
        c.alignment_of(i, i) == identity_alignment(i),
        c.step(i, i) == Step::Match,
    decreases n - i,
{
    if i < n {
        lemma_diagonal_steps(c, n, i + 1);
        assert(c.alignment_of(i + 1, i + 1) == c.alignment_of(i, i).push((Some(i as usize), Some(i as usize))));
        assert(c.alignment_of(i, i) =~= identity_alignment(i + 1).drop_last());
        assert(identity_alignment(i + 1).drop_last() =~= identity_alignment(i));
    }
    let whole = c.alignment_of(i, i);
    assert(whole.len() == i);
    assert(whole[i - 1] == (Some((i - 1) as usize), Some((i - 1) as usize)));
    match c.step(i, i) {
        Step::Match => {},
        Step::Delete => {
            assert(whole == c.alignment_of((i - 1) as nat, i).push((Some((i - 1) as usize), None)));
            assert(whole[whole.len() - 1].1 is None);
        },
        Step::Insert => {
            assert(whole == c.alignment_of(i, (i - 1) as nat).push((None, Some((i - 1) as usize))));
            assert(whole[whole.len() - 1].0 is None);
        },
    }
}

/// Only such a sequence pairs every index with itself: where a sequence of
/// texts aligned with itself does so, leaving any of its tokens unpaired
/// costs at least 99 units for each index before it.
pub proof fn lemma_identity_alignment_only_then(texts: Seq<Seq<char>>)
    requires
        texts.len() <= usize::MAX,
        text_alignment(texts, texts) == identity_alignment(texts.len()),
    ensures
        gaps_outweigh_position(texts),
{
    let c = text_costs(texts, texts);
    let n = texts.len();
    assert forall|k: int| 0 <= k < n implies 99 * k <= #[trigger] gap_cost_of(texts[k]) by {
        if k > 0 {
            let i = (k + 1) as nat;
            lemma_diagonal_steps(c, n, i);
            c.lemma_total(k as nat, i);
            let content = content_cost(texts[k], normalized(texts[k]), texts[k], normalized(texts[k]));
            let cost = text_pair_cost_of(k as nat, k as nat, texts[k], texts[k]);
            assert(content == 0);
            assert(cost == ((k + k) * 100) * 99 / 100);
            assert(cost == 198 * k);
            assert(c.pair[k][k] == cost as u128);
            assert(c.delete[k] == gap_cost_of(texts[k]));
            assert(c.insert[k] == gap_cost_of(texts[k]));
            assert(c.by_match(i, i) <= c.by_delete(i, i));
            assert(c.total(k as nat, i) <= c.by_insert(k as nat, i));
        }
    }
}

} // verus!
