//! The alignment that the engine yields is one of least cost.

use vstd::prelude::*;
use crate::align::{
    covers_exactly_once, has_reference, has_source, order_preserving, text_alignment, text_costs,
    within, Costs, Pair, Step,
};

verus! {

/// What one pair of an alignment costs.
pub open spec fn pair_cost(c: Costs, p: Pair) -> int {
    match p {
        (Some(i), Some(j)) => c.pair[i as int][j as int] as int,
        (Some(i), None) => c.delete[i as int] as int,
        (None, Some(j)) => c.insert[j as int] as int,
        (None, None) => 0,
    }
}

/// What an alignment costs: the sum of what its pairs cost.
pub open spec fn cost_of(c: Costs, al: Seq<Pair>) -> int
    decreases al.len(),
{
    if al.len() == 0 {
        0
    } else {
        cost_of(c, al.drop_last()) + pair_cost(c, al.last())
    }
}

/// `al` aligns the first `a` source indices with the first `b` reference
/// indices: it has each of them exactly once, and in ascending order.
pub open spec fn is_alignment(al: Seq<Pair>, a: nat, b: nat) -> bool {
    covers_exactly_once(al, a, b) && order_preserving(al)
}

/// The alignment of two prefixes costs what the table says is the least.
pub proof fn lemma_alignment_cost(c: Costs, i: nat, j: nat)
    requires
        i <= usize::MAX,
        j <= usize::MAX,
    ensures
        cost_of(c, c.alignment_of(i, j)) == c.total(i, j),
    decreases i + j,
{
    if i > 0 || j > 0 {
        c.lemma_total(i, j);
        let al = c.alignment_of(i, j);
        match c.step(i, j) {
            Step::Match => {
                lemma_alignment_cost(c, (i - 1) as nat, (j - 1) as nat);
                assert(al.drop_last() =~= c.alignment_of((i - 1) as nat, (j - 1) as nat));
                assert(al.last() == (Some((i - 1) as usize), Some((j - 1) as usize)));
            },
            Step::Delete => {
                lemma_alignment_cost(c, (i - 1) as nat, j);
                assert(al.drop_last() =~= c.alignment_of((i - 1) as nat, j));
                assert(al.last() == (Some((i - 1) as usize), None::<usize>));
            },
            Step::Insert => {
                lemma_alignment_cost(c, i, (j - 1) as nat);
                assert(al.drop_last() =~= c.alignment_of(i, (j - 1) as nat));
                assert(al.last() == (None::<usize>, Some((j - 1) as usize)));
            },
        }
    }
}

/// What is left of an alignment without its last pair aligns what is left
/// of the two prefixes without the indices of that pair, which are the
/// last of each.
proof fn lemma_without_last(al: Seq<Pair>, a: nat, b: nat)
    requires
        is_alignment(al, a, b),
        al.len() > 0,
        a <= usize::MAX,
        b <= usize::MAX,
    ensures
        al.last().0 is Some ==> a > 0 && al.last().0->0 == a - 1,
        al.last().1 is Some ==> b > 0 && al.last().1->0 == b - 1,
        is_alignment(
            al.drop_last(),
            if al.last().0 is Some {
                (a - 1) as nat
            } else {
                a
            },
            if al.last().1 is Some {
                (b - 1) as nat
            } else {
                b
            },
        ),
{
    let n = al.len() - 1;
    let last = al[n];
    let rest = al.drop_last();
    let ra = if last.0 is Some {
        (a - 1) as nat
    } else {
        a
    };
    let rb = if last.1 is Some {
        (b - 1) as nat
    } else {
        b
    };
    assert(forall|k: int| 0 <= k < n ==> rest[k] == al[k]);
    if last.0 is Some {
        let x = last.0->0;
        if x != a - 1 {
            assert(has_source(al, (a - 1) as usize));
            let k = choose|k: int| 0 <= k < al.len() && (#[trigger] al[k]).0 == Some((a - 1) as usize);
            assert(k < n);
            assert(al[k].0 is Some && al[n].0 is Some);
            assert(al[k].0->0 < al[n].0->0);
            assert(false);
        }
    }
    if last.1 is Some {
        let y = last.1->0;
        if y != b - 1 {
            assert(has_reference(al, (b - 1) as usize));
            let k = choose|k: int|
                0 <= k < al.len() && (#[trigger] al[k]).1 == Some((b - 1) as usize);
            assert(k < n);
            assert(al[k].1 is Some && al[n].1 is Some);
            assert(al[k].1->0 < al[n].1->0);
            assert(false);
        }
    }
    assert(within(rest, ra, rb)) by {
        assert forall|k: int| 0 <= k < rest.len() implies {
            &&& (#[trigger] rest[k]).0 is Some || rest[k].1 is Some
            &&& rest[k].0 is Some ==> rest[k].0->0 < ra
            &&& rest[k].1 is Some ==> rest[k].1->0 < rb
        } by {
            assert(rest[k] == al[k]);
            if last.0 is Some && al[k].0 is Some {
                assert(al[k].0->0 < al[n].0->0);
            }
            if last.1 is Some && al[k].1 is Some {
                assert(al[k].1->0 < al[n].1->0);
            }
        }
    }
    assert forall|i: usize| i < ra implies #[trigger] has_source(rest, i) by {
        assert(has_source(al, i));
        let k = choose|k: int| 0 <= k < al.len() && (#[trigger] al[k]).0 == Some(i);
        assert(k < n);
        assert(rest[k].0 == Some(i));
    }
    assert forall|j: usize| j < rb implies #[trigger] has_reference(rest, j) by {
        assert(has_reference(al, j));
        let k = choose|k: int| 0 <= k < al.len() && (#[trigger] al[k]).1 == Some(j);
        assert(k < n);
        assert(rest[k].1 == Some(j));
    }
    assert forall|k: int, l: int|
        0 <= k < rest.len() && 0 <= l < rest.len() && (#[trigger] rest[k]).0 is Some && rest[k].0
            == (#[trigger] rest[l]).0 implies k == l by {
        assert(rest[k] == al[k] && rest[l] == al[l]);
    }
    assert forall|k: int, l: int|
        0 <= k < rest.len() && 0 <= l < rest.len() && (#[trigger] rest[k]).1 is Some && rest[k].1
            == (#[trigger] rest[l]).1 implies k == l by {
        assert(rest[k] == al[k] && rest[l] == al[l]);
    }
    assert(order_preserving(rest)) by {
        assert forall|k: int, l: int|
            0 <= k < l < rest.len() && (#[trigger] rest[k]).0 is Some && (#[trigger] rest[l]).0 is Some
            implies rest[k].0->0 < rest[l].0->0 by {
            assert(rest[k] == al[k] && rest[l] == al[l]);
        }
        assert forall|k: int, l: int|
            0 <= k < l < rest.len() && (#[trigger] rest[k]).1 is Some && (#[trigger] rest[l]).1 is Some
            implies rest[k].1->0 < rest[l].1->0 by {
            assert(rest[k] == al[k] && rest[l] == al[l]);
        }
    }
}

/// No alignment of two prefixes costs less than the one that the table
/// yields: whatever pairs an alignment of the first `a` source indices
/// with the first `b` reference indices is made of, it costs at least the
/// total of the two prefixes.
pub proof fn lemma_no_cheaper_alignment(c: Costs, al: Seq<Pair>, a: nat, b: nat)
    requires
        is_alignment(al, a, b),
        a <= usize::MAX,
        b <= usize::MAX,
    ensures
        cost_of(c, al) >= c.total(a, b),
        cost_of(c, al) >= cost_of(c, c.alignment_of(a, b)),
    decreases al.len(),
{
    lemma_alignment_cost(c, a, b);
    if al.len() == 0 {
        if a > 0 {
            assert(has_source(al, 0));
        }
        if b > 0 {
            assert(has_reference(al, 0));
        }
    } else {
        lemma_without_last(al, a, b);
        let last = al.last();
        let ra = if last.0 is Some {
            (a - 1) as nat
        } else {
            a
        };
        let rb = if last.1 is Some {
            (b - 1) as nat
        } else {
            b
        };
        lemma_no_cheaper_alignment(c, al.drop_last(), ra, rb);
        c.lemma_total(a, b);
        assert(last.0 is Some || last.1 is Some);
    }
}

/// The alignment of two sequences of texts costs no more than any other
/// alignment of the two.
pub proof fn lemma_text_alignment_is_cheapest(
    a: Seq<Seq<char>>,
    b: Seq<Seq<char>>,
    other: Seq<Pair>,
)
    requires
        a.len() <= usize::MAX,
        b.len() <= usize::MAX,
        is_alignment(other, a.len(), b.len()),
    ensures
        cost_of(text_costs(a, b), text_alignment(a, b)) <= cost_of(text_costs(a, b), other),
{
    lemma_no_cheaper_alignment(text_costs(a, b), other, a.len(), b.len());
}

} // verus!
