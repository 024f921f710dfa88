//! Cost-minimising alignment of two sequences.
//!
//! The engine knows nothing of what it aligns: it is handed two lengths, the
//! cost of leaving an index of either side unpaired, and the cost of pairing
//! an index of one side with an index of the other. Costs are whole numbers
//! of a fixed unit, so that ties are broken the same way on every machine,
//! and they are summed without loss, however many there are.

use vstd::prelude::*;
use crate::cost::{gap_cost, gap_cost_of, text_pair_cost, text_pair_cost_of};
use crate::token::{texts_of, token_infos, views_of};

verus! {

/// One entry of an alignment: an index of the source side, an index of the
/// reference side, or both where the two are paired.
pub type Pair = (Option<usize>, Option<usize>);

/// How a cell of the table is reached from a neighbour.
#[derive(Clone, Copy, Debug)]
pub enum Step {
    /// Pairs the last index of both prefixes.
    Match,
    /// Leaves the last source index unpaired.
    Delete,
    /// Leaves the last reference index unpaired.
    Insert,
}

/// The costs that one alignment is computed from.
pub struct Costs {
    /// Cost of leaving each source index unpaired.
    pub delete: Seq<u128>,
    /// Cost of leaving each reference index unpaired.
    pub insert: Seq<u128>,
    /// Cost of pairing a source index (outer) with a reference index (inner).
    pub pair: Seq<Seq<u128>>,
}

impl Costs {
    /// There is one row of pairing costs for each source index, and one
    /// entry in it for each reference index.
    pub open spec fn wf(self) -> bool {
        &&& self.pair.len() == self.delete.len()
        &&& forall|i: int|
            0 <= i < self.pair.len() ==> (#[trigger] self.pair[i]).len() == self.insert.len()
    }

    /// Cost of pairing the last indices of the prefixes of lengths `i` and `j`.
    pub open spec fn by_match(self, i: nat, j: nat) -> int
        recommends
            0 < i,
            0 < j,
        decreases i + j, 0nat,
    {
        if 0 < i && 0 < j {
            self.total((i - 1) as nat, (j - 1) as nat) + self.pair[i - 1][j - 1]
        } else {
            0
        }
    }

    /// Cost of leaving the last source index of the prefix of length `i` unpaired.
    pub open spec fn by_delete(self, i: nat, j: nat) -> int
        recommends
            0 < i,
        decreases i + j, 0nat,
    {
        if 0 < i {
            self.total((i - 1) as nat, j) + self.delete[i - 1]
        } else {
            0
        }
    }

    /// Cost of leaving the last reference index of the prefix of length `j` unpaired.
    pub open spec fn by_insert(self, i: nat, j: nat) -> int
        recommends
            0 < j,
        decreases i + j, 0nat,
    {
        if 0 < j {
            self.total(i, (j - 1) as nat) + self.insert[j - 1]
        } else {
            0
        }
    }

    /// How the prefixes of lengths `i` and `j` are best aligned at their
    /// end. Pairing wins a tie against both others; between the other two,
    /// leaving the reference index unpaired wins a tie.
    pub open spec fn step(self, i: nat, j: nat) -> Step {
        if j == 0 {
            Step::Delete
        } else if i == 0 {
            Step::Insert
        } else if self.by_match(i, j) <= self.by_delete(i, j) && self.by_match(i, j)
            <= self.by_insert(i, j) {
            Step::Match
        } else if self.by_delete(i, j) < self.by_insert(i, j) {
            Step::Delete
        } else {
            Step::Insert
        }
    }

    /// The least cost of aligning the first `i` source indices with the
    /// first `j` reference indices.
    pub open spec fn total(self, i: nat, j: nat) -> int
        decreases i + j, 1nat,
    {
        if i == 0 && j == 0 {
            0
        } else if j == 0 {
            self.by_delete(i, j)
        } else if i == 0 {
            self.by_insert(i, j)
        } else {
            vstd::math::min(
                self.by_match(i, j),
                vstd::math::min(self.by_delete(i, j), self.by_insert(i, j)),
            )
        }
    }

    /// The alignment of the first `i` source indices with the first `j`
    /// reference indices, in ascending order.
    pub open spec fn alignment_of(self, i: nat, j: nat) -> Seq<Pair>
        decreases i + j,
    {
        if i == 0 && j == 0 {
            Seq::empty()
        } else {
            match self.step(i, j) {
                Step::Match => self.alignment_of((i - 1) as nat, (j - 1) as nat).push(
                    (Some((i - 1) as usize), Some((j - 1) as usize)),
                ),
                Step::Delete => self.alignment_of((i - 1) as nat, j).push(
                    (Some((i - 1) as usize), None),
                ),
                Step::Insert => self.alignment_of(i, (j - 1) as nat).push(
                    (None, Some((j - 1) as usize)),
                ),
            }
        }
    }

    /// The alignment of the two whole sequences.
    pub open spec fn alignment(self) -> Seq<Pair> {
        self.alignment_of(self.delete.len(), self.insert.len())
    }

    /// No total exceeds what its steps can add up to at most, and the
    /// total of a cell is the cost of the step chosen for it.
    pub proof fn lemma_total(self, i: nat, j: nat)
        ensures
            0 <= self.total(i, j) <= (i + j) * u128::MAX,
            i > 0 || j > 0 ==> self.total(i, j) == match self.step(i, j) {
                Step::Match => self.by_match(i, j),
                Step::Delete => self.by_delete(i, j),
                Step::Insert => self.by_insert(i, j),
            },
        decreases i + j,
    {
        if i > 0 {
            self.lemma_total((i - 1) as nat, j);
        }
        if j > 0 {
            self.lemma_total(i, (j - 1) as nat);
        }
        if i > 0 && j > 0 {
            self.lemma_total((i - 1) as nat, (j - 1) as nat);
        }
        assert((i + j) * u128::MAX == (i + j - 1) * u128::MAX + u128::MAX) by (nonlinear_arith);
        assert((i + j - 1) * u128::MAX == (i + j - 2) * u128::MAX + u128::MAX) by (nonlinear_arith);
    }
}

/// The source index of every pair of `al` that has one lies below `a`, the
/// reference index of every pair that has one lies below `b`, and no pair
/// is without both.
pub open spec fn within(al: Seq<Pair>, a: nat, b: nat) -> bool {
    forall|k: int|
        0 <= k < al.len() ==> {
            &&& (#[trigger] al[k]).0 is Some || al[k].1 is Some
            &&& al[k].0 is Some ==> al[k].0->0 < a
            &&& al[k].1 is Some ==> al[k].1->0 < b
        }
}

/// Some pair of `al` has the source index `i`.
pub open spec fn has_source(al: Seq<Pair>, i: usize) -> bool {
    exists|k: int| 0 <= k < al.len() && (#[trigger] al[k]).0 == Some(i)
}

/// Some pair of `al` has the reference index `j`.
pub open spec fn has_reference(al: Seq<Pair>, j: usize) -> bool {
    exists|k: int| 0 <= k < al.len() && (#[trigger] al[k]).1 == Some(j)
}

/// Every index below `a` stands on the source side of exactly one pair of
/// `al`, and every index below `b` on the reference side of exactly one.
pub open spec fn covers_exactly_once(al: Seq<Pair>, a: nat, b: nat) -> bool {
    &&& within(al, a, b)
    &&& forall|i: usize| i < a ==> #[trigger] has_source(al, i)
    &&& forall|j: usize| j < b ==> #[trigger] has_reference(al, j)
    &&& forall|k: int, l: int|
        0 <= k < al.len() && 0 <= l < al.len() && (#[trigger] al[k]).0 is Some && al[k].0 == (
        #[trigger] al[l]).0 ==> k == l
    &&& forall|k: int, l: int|
        0 <= k < al.len() && 0 <= l < al.len() && (#[trigger] al[k]).1 is Some && al[k].1 == (
        #[trigger] al[l]).1 ==> k == l
}

/// The source indices that are present grow strictly along `al`, and so do
/// the reference indices.
pub open spec fn order_preserving(al: Seq<Pair>) -> bool {
    &&& forall|k: int, l: int|
        0 <= k < l < al.len() && (#[trigger] al[k]).0 is Some && (#[trigger] al[l]).0 is Some
            ==> al[k].0->0 < al[l].0->0
    &&& forall|k: int, l: int|
        0 <= k < l < al.len() && (#[trigger] al[k]).1 is Some && (#[trigger] al[l]).1 is Some
            ==> al[k].1->0 < al[l].1->0
}

/// Whatever the costs, the alignment of two prefixes pairs or leaves out
/// each of their indices exactly once, and in ascending order.
pub proof fn lemma_alignment_is_monotone_cover(c: Costs, i: nat, j: nat)
    requires
        i <= usize::MAX,
        j <= usize::MAX,
    ensures
        covers_exactly_once(c.alignment_of(i, j), i, j),
        order_preserving(c.alignment_of(i, j)),
        c.alignment_of(i, j).len() <= i + j,
    decreases i + j,
{
    let al = c.alignment_of(i, j);
    if i == 0 && j == 0 {
    } else {
        let (pi, pj) = match c.step(i, j) {
            Step::Match => ((i - 1) as nat, (j - 1) as nat),
            Step::Delete => ((i - 1) as nat, j),
            Step::Insert => (i, (j - 1) as nat),
        };
        let before = c.alignment_of(pi, pj);
        lemma_alignment_is_monotone_cover(c, pi, pj);
        let n = before.len() as int;
        assert(al.len() == n + 1);
        assert(forall|k: int| 0 <= k < n ==> al[k] == before[k]);
        assert(within(al, i, j));
        assert forall|x: usize| x < i implies #[trigger] has_source(al, x) by {
            if x < pi {
                assert(has_source(before, x));
                let k = choose|k: int| 0 <= k < before.len() && (#[trigger] before[k]).0 == Some(x);
                assert(al[k].0 == Some(x));
            } else {
                assert(al[n].0 == Some(x));
            }
        }
        assert forall|y: usize| y < j implies #[trigger] has_reference(al, y) by {
            if y < pj {
                assert(has_reference(before, y));
                let k = choose|k: int| 0 <= k < before.len() && (#[trigger] before[k]).1 == Some(y);
                assert(al[k].1 == Some(y));
            } else {
                assert(al[n].1 == Some(y));
            }
        }
        assert(order_preserving(al)) by {
            assert forall|k: int, l: int|
                0 <= k < l < al.len() && (#[trigger] al[k]).0 is Some && (#[trigger] al[l]).0 is Some
                implies al[k].0->0 < al[l].0->0 by {
                assert(al[k] == before[k]);
                if l < n {
                    assert(al[l] == before[l]);
                }
            }
            assert forall|k: int, l: int|
                0 <= k < l < al.len() && (#[trigger] al[k]).1 is Some && (#[trigger] al[l]).1 is Some
                implies al[k].1->0 < al[l].1->0 by {
                assert(al[k] == before[k]);
                if l < n {
                    assert(al[l] == before[l]);
                }
            }
        }
        assert forall|k: int, l: int|
            0 <= k < al.len() && 0 <= l < al.len() && (#[trigger] al[k]).0 is Some && al[k].0 == (
            #[trigger] al[l]).0 implies k == l by {
            if k < n {
                assert(al[k] == before[k]);
            }
            if l < n {
                assert(al[l] == before[l]);
            }
        }
        assert forall|k: int, l: int|
            0 <= k < al.len() && 0 <= l < al.len() && (#[trigger] al[k]).1 is Some && al[k].1 == (
            #[trigger] al[l]).1 implies k == l by {
            if k < n {
                assert(al[k] == before[k]);
            }
            if l < n {
                assert(al[l] == before[l]);
            }
        }
    }
}

/// The costs in `c` are ones that the two cost functions can return for
/// lengths `a` and `b`: `gap` with `false` for a source index and with
/// `true` for a reference index, `pairing` for a source and a reference
/// index.
pub open spec fn observed<G: Fn(bool, usize) -> u128, P: Fn(usize, usize) -> u128>(
    c: Costs,
    a: usize,
    b: usize,
    gap: G,
    pairing: P,
) -> bool {
    &&& c.wf()
    &&& c.delete.len() == a
    &&& c.insert.len() == b
    &&& forall|i: usize| i < a ==> call_ensures(gap, (false, i), #[trigger] c.delete[i as int])
    &&& forall|j: usize| j < b ==> call_ensures(gap, (true, j), #[trigger] c.insert[j as int])
    &&& forall|i: usize, j: usize|
        i < a && j < b ==> call_ensures(pairing, (i, j), #[trigger] c.pair[i as int][j as int])
}

/// Asks `gap` for the cost of leaving each of the `n` indices of one side
/// unpaired, in ascending order.
fn gap_costs<G: Fn(bool, usize) -> u128>(n: usize, side: bool, gap: &G) -> (r: Vec<u128>)
    requires
        forall|i: usize| i < n ==> call_requires(*gap, (side, i)),
    ensures
        r.len() == n,
        forall|i: usize| i < n ==> call_ensures(*gap, (side, i), #[trigger] r@[i as int]),
{
    let mut r: Vec<u128> = Vec::new();
    let mut i: usize = 0;
    while i < n
        invariant
            i <= n,
            r.len() == i,
            forall|k: usize| k < n ==> call_requires(*gap, (side, k)),
            forall|k: usize| k < i ==> call_ensures(*gap, (side, k), #[trigger] r@[k as int]),
        decreases n - i,
    {
        let g = gap(side, i);
        r.push(g);
        i += 1;
    }
    r
}

/// Asks `pairing` for the cost of every pair of a source and a reference
/// index, row by row.
fn pair_costs<P: Fn(usize, usize) -> u128>(a: usize, b: usize, pairing: &P) -> (r: Vec<Vec<u128>>)
    requires
        forall|i: usize, j: usize| i < a && j < b ==> call_requires(*pairing, (i, j)),
    ensures
        r.len() == a,
        forall|i: int| 0 <= i < a ==> (#[trigger] r@[i]).len() == b,
        forall|i: usize, j: usize|
            i < a && j < b ==> call_ensures(*pairing, (i, j), #[trigger] r@[i as int]@[j as int]),
{
    let mut r: Vec<Vec<u128>> = Vec::new();
    let mut i: usize = 0;
    while i < a
        invariant
            i <= a,
            r.len() == i,
            forall|k: usize, l: usize| k < a && l < b ==> call_requires(*pairing, (k, l)),
            forall|k: int| 0 <= k < i ==> (#[trigger] r@[k]).len() == b,
            forall|k: usize, l: usize|
                k < i && l < b ==> call_ensures(
                    *pairing,
                    (k, l),
                    #[trigger] r@[k as int]@[l as int],
                ),
        decreases a - i,
    {
        let mut row: Vec<u128> = Vec::new();
        let mut j: usize = 0;
        while j < b
            invariant
                i < a,
                j <= b,
                row.len() == j,
                forall|k: usize, l: usize| k < a && l < b ==> call_requires(*pairing, (k, l)),
                forall|l: usize| l < j ==> call_ensures(*pairing, (i, l), #[trigger] row@[l as int]),
            decreases b - j,
        {
            let p = pairing(i, j);
            row.push(p);
            j += 1;
        }
        r.push(row);
        i += 1;
    }
    r
}

/// The costs held in the three tables.
pub open spec fn costs_of(delete: &Vec<u128>, insert: &Vec<u128>, pair: &Vec<Vec<u128>>) -> Costs {
    Costs { delete: delete@, insert: insert@, pair: Seq::new(pair@.len(), |i: int| pair@[i]@) }
}

/// A sum of costs, which may be more than 128 bits hold: `hi` times two
/// to the 128th, and `lo`.
#[derive(Clone, Copy)]
struct Total {
    hi: u128,
    lo: u128,
}

impl Total {
    /// The sum as a number.
    spec fn value(self) -> int {
        self.hi * 0x1_0000_0000_0000_0000_0000_0000_0000_0000 + self.lo
    }

    /// The sum and one cost more.
    fn plus(self, cost: u128) -> (r: Total)
        requires
            self.hi < u128::MAX,
        ensures
            r.value() == self.value() + cost,
    {
        match self.lo.checked_add(cost) {
            Some(lo) => Total { hi: self.hi, lo },
            None => Total { hi: self.hi + 1, lo: self.lo - (u128::MAX - cost) - 1 },
        }
    }

    /// Whether the sum is no more than the other.
    fn at_most(self, other: Total) -> (r: bool)
        ensures
            r == (self.value() <= other.value()),
    {
        self.hi < other.hi || (self.hi == other.hi && self.lo <= other.lo)
    }

    /// Whether the sum is less than the other.
    fn less_than(self, other: Total) -> (r: bool)
        ensures
            r == (self.value() < other.value()),
    {
        self.hi < other.hi || (self.hi == other.hi && self.lo < other.lo)
    }
}

/// The total of two prefixes leaves room for one cost more.
proof fn lemma_room(c: Costs, i: nat, j: nat, t: Total)
    requires
        i <= usize::MAX,
        j <= usize::MAX,
        t.value() == c.total(i, j),
    ensures
        t.hi < u128::MAX,
{
    c.lemma_total(i, j);
    let n = (i + j) as int;
    let h = t.hi as int;
    assert(h <= n) by (nonlinear_arith)
        requires
            h * 0x1_0000_0000_0000_0000_0000_0000_0000_0000 + t.lo <= n
                * 0xFFFF_FFFF_FFFF_FFFF_FFFF_FFFF_FFFF_FFFF,
            0 <= t.lo,
            0 <= h,
            0 <= n,
    ;
}

/// Fills the table of steps for the costs in the three tables: row `i`,
/// column `j` holds the step by which the prefixes of lengths `i` and `j`
/// are best aligned at their end.
fn fill_steps(delete: &Vec<u128>, insert: &Vec<u128>, pair: &Vec<Vec<u128>>) -> (steps: Vec<
    Vec<Step>,
>)
    requires
        costs_of(delete, insert, pair).wf(),
    ensures
        steps.len() == delete.len() + 1,
        forall|i: int| 0 <= i <= delete.len() ==> (#[trigger] steps@[i]).len() == insert.len() + 1,
        forall|i: int, j: int|
            0 <= i <= delete.len() && 0 <= j <= insert.len() ==> #[trigger] steps@[i]@[j]
                == costs_of(delete, insert, pair).step(i as nat, j as nat),
{
    let ghost c = costs_of(delete, insert, pair);
    let a = delete.len();
    let b = insert.len();
    let mut steps: Vec<Vec<Step>> = Vec::new();
    let mut prev: Vec<Total> = Vec::new();
    let mut row: Vec<Step> = Vec::new();
    prev.push(Total { hi: 0, lo: 0 });
    row.push(Step::Delete);
    let mut j: usize = 0;
    while j < b
        invariant
            j <= b,
            b == insert.len(),
            c == costs_of(delete, insert, pair),
            prev.len() == j + 1,
            row.len() == j + 1,
            forall|k: int| 0 <= k <= j ==> (#[trigger] prev@[k]).value() == c.total(0, k as nat),
            forall|k: int| 0 <= k <= j ==> #[trigger] row@[k] == c.step(0, k as nat),
        decreases b - j,
    {
        proof {
            lemma_room(c, 0, j as nat, prev@[j as int]);
        }
        let t = prev[j].plus(insert[j]);
        prev.push(t);
        row.push(Step::Insert);
        j += 1;
    }
    steps.push(row);
    let mut i: usize = 0;
    while i < a
        invariant
            i <= a,
            a == delete.len(),
            b == insert.len(),
            c == costs_of(delete, insert, pair),
            c.wf(),
            steps.len() == i + 1,
            prev.len() == b + 1,
            forall|k: int|
                0 <= k <= b ==> (#[trigger] prev@[k]).value() == c.total(i as nat, k as nat),
            forall|r: int| 0 <= r <= i ==> (#[trigger] steps@[r]).len() == b + 1,
            forall|r: int, k: int|
                0 <= r <= i && 0 <= k <= b ==> #[trigger] steps@[r]@[k] == c.step(
                    r as nat,
                    k as nat,
                ),
        decreases a - i,
    {
        let mut cur: Vec<Total> = Vec::new();
        let mut row: Vec<Step> = Vec::new();
        proof {
            lemma_room(c, i as nat, 0, prev@[0]);
        }
        cur.push(prev[0].plus(delete[i]));
        row.push(Step::Delete);
        let mut j: usize = 0;
        while j < b
            invariant
                i < a,
                j <= b,
                a == delete.len(),
                b == insert.len(),
                c == costs_of(delete, insert, pair),
                c.wf(),
                prev.len() == b + 1,
                cur.len() == j + 1,
                row.len() == j + 1,
                forall|k: int|
                    0 <= k <= b ==> (#[trigger] prev@[k]).value() == c.total(i as nat, k as nat),
                forall|k: int|
                    0 <= k <= j ==> (#[trigger] cur@[k]).value() == c.total(
                        (i + 1) as nat,
                        k as nat,
                    ),
                forall|k: int|
                    0 <= k <= j ==> #[trigger] row@[k] == c.step((i + 1) as nat, k as nat),
            decreases b - j,
        {
            proof {
                lemma_room(c, i as nat, j as nat, prev@[j as int]);
                lemma_room(c, i as nat, (j + 1) as nat, prev@[j + 1]);
                lemma_room(c, (i + 1) as nat, j as nat, cur@[j as int]);
                c.lemma_total((i + 1) as nat, (j + 1) as nat);
                assert(c.pair[i as int] == pair@[i as int]@);
            }
            let by_match = prev[j].plus(pair[i][j]);
            let by_delete = prev[j + 1].plus(delete[i]);
            let by_insert = cur[j].plus(insert[j]);
            assert(by_match.value() == c.by_match((i + 1) as nat, (j + 1) as nat));
            assert(by_delete.value() == c.by_delete((i + 1) as nat, (j + 1) as nat));
            assert(by_insert.value() == c.by_insert((i + 1) as nat, (j + 1) as nat));
            if by_match.at_most(by_delete) && by_match.at_most(by_insert) {
                cur.push(by_match);
                row.push(Step::Match);
            } else if by_delete.less_than(by_insert) {
                cur.push(by_delete);
                row.push(Step::Delete);
            } else {
                cur.push(by_insert);
                row.push(Step::Insert);
            }
            j += 1;
        }
        steps.push(row);
        prev = cur;
        i += 1;
    }
    steps
}

/// Walks the table of steps back from its last cell and returns the pairs
/// met on the way, in ascending order.
fn trace_back(Ghost(c): Ghost<Costs>, a: usize, b: usize, steps: &Vec<Vec<Step>>) -> (r: Vec<Pair>)
    requires
        steps.len() == a + 1,
        forall|i: int| 0 <= i <= a ==> (#[trigger] steps@[i]).len() == b + 1,
        forall|i: int, j: int|
            0 <= i <= a && 0 <= j <= b ==> #[trigger] steps@[i]@[j] == c.step(i as nat, j as nat),
    ensures
        r@ == c.alignment_of(a as nat, b as nat),
{
    let mut back: Vec<Pair> = Vec::new();
    let ghost mut tail: Seq<Pair> = Seq::empty();
    let mut i: usize = a;
    let mut j: usize = b;
    while i > 0 || j > 0
        invariant
            i <= a,
            j <= b,
            steps.len() == a + 1,
            forall|r: int| 0 <= r <= a ==> (#[trigger] steps@[r]).len() == b + 1,
            forall|r: int, k: int|
                0 <= r <= a && 0 <= k <= b ==> #[trigger] steps@[r]@[k] == c.step(
                    r as nat,
                    k as nat,
                ),
            back@.len() == tail.len(),
            back@.len() + i + j <= a + b,
            forall|t: int| 0 <= t < tail.len() ==> #[trigger] tail[t] == back@[tail.len() - 1 - t],
            c.alignment_of(i as nat, j as nat) + tail == c.alignment_of(a as nat, b as nat),
        decreases i + j,
    {
        let ghost before = c.alignment_of(i as nat, j as nat);
        let ghost old_tail = tail;
        let step = steps[i][j];
        assert(step == c.step(i as nat, j as nat));
        let pair: Pair = match step {
            Step::Match => {
                i -= 1;
                j -= 1;
                (Some(i), Some(j))
            },
            Step::Delete => {
                i -= 1;
                (Some(i), None)
            },
            Step::Insert => {
                j -= 1;
                (None, Some(j))
            },
        };
        back.push(pair);
        proof {
            tail = seq![pair] + tail;
            assert(before == c.alignment_of(i as nat, j as nat).push(pair));
            assert(c.alignment_of(i as nat, j as nat) + tail =~= before + old_tail);
            assert forall|t: int| 0 <= t < tail.len() implies #[trigger] tail[t] == back@[tail.len()
                - 1 - t] by {
                if t > 0 {
                    assert(tail[t] == old_tail[t - 1]);
                }
            }
        }
    }
    assert(c.alignment_of(0, 0) + tail =~= tail);
    let n = back.len();
    let mut r: Vec<Pair> = Vec::new();
    let mut k: usize = n;
    while k > 0
        invariant
            k <= n,
            n == back.len(),
            r.len() == n - k,
            forall|t: int| 0 <= t < n - k ==> #[trigger] r@[t] == back@[n - 1 - t],
        decreases k,
    {
        k -= 1;
        r.push(back[k]);
    }
    assert(r@ =~= tail);
    r
}

/// Aligns a source sequence of length `a` with a reference sequence of
/// length `b` at the least total cost.
///
/// `gap_cost_for(false, i)` is the cost of leaving source index `i`
/// unpaired, `gap_cost_for(true, j)` that of leaving reference index `j`
/// unpaired, and `pairwise_cost(i, j)` that of pairing the two. Each is
/// asked once for every index or pair of indices. The result is the
/// alignment that [`Costs::alignment`] defines for the costs returned, so
/// where several alignments cost the same, pairing is preferred, and
/// leaving a reference index unpaired is preferred to leaving a source
/// index unpaired.
pub fn align(
    a: usize,
    b: usize,
    gap_cost_for: impl Fn(bool, usize) -> u128,
    pairwise_cost: impl Fn(usize, usize) -> u128,
) -> (r: Vec<Pair>)
    requires
        forall|i: usize| i < a ==> call_requires(gap_cost_for, (false, i)),
        forall|j: usize| j < b ==> call_requires(gap_cost_for, (true, j)),
        forall|i: usize, j: usize| i < a && j < b ==> call_requires(pairwise_cost, (i, j)),
    ensures
        exists|c: Costs| #[trigger]
            observed(c, a, b, gap_cost_for, pairwise_cost) && r@ == c.alignment(),
        covers_exactly_once(r@, a as nat, b as nat),
        order_preserving(r@),
        r.len() <= a + b,
{
    let delete = gap_costs(a, false, &gap_cost_for);
    let insert = gap_costs(b, true, &gap_cost_for);
    let pair = pair_costs(a, b, &pairwise_cost);
    let ghost c = costs_of(&delete, &insert, &pair);
    let r = align_tables(&delete, &insert, &pair);
    proof {
        assert(observed(c, a, b, gap_cost_for, pairwise_cost));
        assert(r@ == c.alignment());
    }
    r
}

/// Aligns a source sequence with a reference sequence at the least total
/// cost, given the costs in tables: `delete[i]` is the cost of leaving
/// source index `i` unpaired, `insert[j]` that of leaving reference index
/// `j` unpaired, and `pair[i][j]` that of pairing the two.
pub fn align_tables(delete: &Vec<u128>, insert: &Vec<u128>, pair: &Vec<Vec<u128>>) -> (r: Vec<Pair>)
    requires
        costs_of(delete, insert, pair).wf(),
    ensures
        r@ == costs_of(delete, insert, pair).alignment(),
        covers_exactly_once(r@, delete.len() as nat, insert.len() as nat),
        order_preserving(r@),
        r.len() <= delete.len() + insert.len(),
{
    let ghost c = costs_of(delete, insert, pair);
    let steps = fill_steps(delete, insert, pair);
    let r = trace_back(Ghost(c), delete.len(), insert.len(), &steps);
    proof {
        lemma_alignment_is_monotone_cover(c, delete.len() as nat, insert.len() as nat);
    }
    r
}

/// The costs from which two sequences of texts are aligned.
pub open spec fn text_costs(a: Seq<Seq<char>>, b: Seq<Seq<char>>) -> Costs {
    Costs {
        delete: Seq::new(a.len(), |i: int| gap_cost_of(a[i])),
        insert: Seq::new(b.len(), |j: int| gap_cost_of(b[j])),
        pair: Seq::new(
            a.len(),
            |i: int| Seq::new(b.len(), |j: int| text_pair_cost_of(i as nat, j as nat, a[i], b[j]) as u128),
        ),
    }
}

/// The alignment of the source texts `a` with the reference texts `b`.
pub open spec fn text_alignment(a: Seq<Seq<char>>, b: Seq<Seq<char>>) -> Seq<Pair> {
    text_costs(a, b).alignment()
}

/// Aligns the source tokens `a` with the reference tokens `b` by their
/// texts: tokens that are equal, or equal but for case, script or the
/// whitespace around them, are paired cheaply, and a token of punctuation
/// is cheap to leave out.
pub fn text_align(a: Vec<String>, b: Vec<String>) -> (r: Vec<Pair>)
    ensures
        r@ == text_alignment(views_of(a@), views_of(b@)),
        covers_exactly_once(r@, a.len() as nat, b.len() as nat),
        order_preserving(r@),
{
    let ghost at = views_of(a@);
    let ghost bt = views_of(b@);
    let an = token_infos(a);
    let bn = token_infos(b);
    assert(an.len() == at.len() && bn.len() == bt.len()) by {
        assert(texts_of(an@).len() == an.len());
        assert(texts_of(bn@).len() == bn.len());
    }
    assert forall|i: int| 0 <= i < an.len() implies (#[trigger] an@[i]).text@ == at[i] by {
        assert(texts_of(an@)[i] == an@[i].text@);
    }
    assert forall|j: int| 0 <= j < bn.len() implies (#[trigger] bn@[j]).text@ == bt[j] by {
        assert(texts_of(bn@)[j] == bn@[j].text@);
    }
    let gap = |is_b: bool, i: usize| -> (g: u128)
        requires
            is_b ==> i < bn.len(),
            !is_b ==> i < an.len(),
        ensures
            g == gap_cost_of(
                if is_b {
                    bn@[i as int].text@
                } else {
                    an@[i as int].text@
                },
            ),
        {
            if is_b {
                gap_cost(&bn[i])
            } else {
                gap_cost(&an[i])
            }
        };
    let pairing = |ai: usize, bi: usize| -> (p: u128)
        requires
            ai < an.len(),
            bi < bn.len(),
            an@[ai as int].wf(),
            bn@[bi as int].wf(),
        ensures
            p == text_pair_cost_of(ai as nat, bi as nat, an@[ai as int].text@, bn@[bi as int].text@),
        { text_pair_cost(ai, bi, &an[ai], &bn[bi]) };
    let r = align(an.len(), bn.len(), gap, pairing);
    proof {
        let c = choose|c: Costs| #[trigger]
            observed(c, an.len(), bn.len(), gap, pairing) && r@ == c.alignment();
        let t = text_costs(at, bt);
        assert(c.delete =~= t.delete);
        assert(c.insert =~= t.insert);
        assert forall|i: int| 0 <= i < c.pair.len() implies #[trigger] c.pair[i] =~= t.pair[i] by {
            assert forall|j: int| 0 <= j < c.pair[i].len() implies c.pair[i][j] == t.pair[i][j] by {
                assert(call_ensures(pairing, (i as usize, j as usize), c.pair[i as usize as int][j as usize as int]));
            }
        }
        assert(c.pair =~= t.pair);
        assert(c == t);
    }
    r
}

} // verus!
