//! Aligned pairs and their grouping into the lines of the reference text.

use vstd::prelude::*;
use crate::align::{within, Pair};
use crate::token::views_of;

verus! {

/// When a source token was heard, in hundredths of a second.
#[derive(Clone, Copy, Debug, PartialEq, Eq)]
pub struct Span {
    pub start: i64,
    pub end: i64,
}

/// One pair of an alignment with what the later stages read of its two
/// sides: the times of the source token and the text of the reference
/// token. At least one side is present in a pair that an alignment yields.
#[derive(Clone, Debug, PartialEq, Eq)]
pub struct AlignedPair {
    pub source: Option<Span>,
    pub reference: Option<String>,
}

/// An [`AlignedPair`] as a mathematical value.
pub struct PairModel {
    pub source: Option<Span>,
    pub reference: Option<Seq<char>>,
}

impl DeepView for AlignedPair {
    type V = PairModel;

    open spec fn deep_view(&self) -> PairModel {
        PairModel {
            source: self.source,
            reference: match self.reference {
                Some(t) => Some(t@),
                None => None,
            },
        }
    }
}

/// A token of the transcript: its text and when it was heard.
#[derive(Clone, Debug, PartialEq, Eq)]
pub struct SourceToken {
    pub text: String,
    pub start: i64,
    pub end: i64,
}

impl SourceToken {
    /// When the token was heard.
    pub open spec fn span(self) -> Span {
        Span { start: self.start, end: self.end }
    }
}

/// The texts of the source tokens.
pub open spec fn source_texts(source: Seq<SourceToken>) -> Seq<Seq<char>> {
    source.map_values(|t: SourceToken| t.text@)
}

/// The times of the source tokens.
pub open spec fn spans_of(source: Seq<SourceToken>) -> Seq<Span> {
    source.map_values(|t: SourceToken| t.span())
}

/// The pairs of the alignment `al` with the times of the source tokens and
/// the texts of the reference tokens in place of their indices.
pub open spec fn paired(al: Seq<Pair>, source: Seq<Span>, reference: Seq<Seq<char>>) -> Seq<
    PairModel,
> {
    Seq::new(
        al.len(),
        |k: int|
            PairModel {
                source: match al[k].0 {
                    Some(i) => Some(source[i as int]),
                    None => None,
                },
                reference: match al[k].1 {
                    Some(j) => Some(reference[j as int]),
                    None => None,
                },
            },
    )
}

/// Puts the times of the source tokens and the texts of the reference
/// tokens in place of the indices of an alignment of the two.
pub fn pair_up(alignment: &Vec<Pair>, source: &Vec<SourceToken>, reference: &Vec<String>) -> (r:
    Vec<AlignedPair>)
    requires
        within(alignment@, source.len() as nat, reference.len() as nat),
    ensures
        r.deep_view() == paired(alignment@, spans_of(source@), views_of(reference@)),
{
    let mut r: Vec<AlignedPair> = Vec::new();
    let mut k: usize = 0;
    while k < alignment.len()
        invariant
            k <= alignment.len(),
            within(alignment@, source.len() as nat, reference.len() as nat),
            r.len() == k,
            forall|t: int|
                0 <= t < k ==> #[trigger] r.deep_view()[t] == paired(
                    alignment@,
                    spans_of(source@),
                    views_of(reference@),
                )[t],
        decreases alignment.len() - k,
    {
        let ghost before = r.deep_view();
        let (a, b) = alignment[k];
        assert(alignment@[k as int] == (a, b));
        let pair = AlignedPair {
            source: match a {
                Some(i) => Some(Span { start: source[i].start, end: source[i].end }),
                None => None,
            },
            reference: match b {
                Some(j) => Some(reference[j].clone()),
                None => None,
            },
        };
        assert(pair.deep_view() == paired(alignment@, spans_of(source@), views_of(reference@))[k as int]);
        r.push(pair);
        assert(r.deep_view() =~= before.push(pair.deep_view()));
        k += 1;
    }
    assert(r.deep_view() =~= paired(alignment@, spans_of(source@), views_of(reference@)));
    r
}

/// The pair closes a line: its reference text holds a line break.
pub open spec fn is_break(p: PairModel) -> bool {
    p.reference matches Some(t) && t.contains('\n')
}

/// Some pair of the line has a reference side.
pub open spec fn has_reference_side(line: Seq<PairModel>) -> bool {
    exists|k: int| 0 <= k < line.len() && (#[trigger] line[k]).reference is Some
}

/// How many pairs the first run of `pairs` takes: all up to and including
/// the first that closes a line, or all there are.
pub open spec fn first_run_len(pairs: Seq<PairModel>) -> nat
    decreases pairs.len(),
{
    if pairs.len() == 0 {
        0
    } else if is_break(pairs.first()) {
        1
    } else {
        1 + first_run_len(pairs.drop_first())
    }
}

/// `pairs` cut behind every pair that closes a line.
pub open spec fn runs_of(pairs: Seq<PairModel>) -> Seq<Seq<PairModel>>
    decreases pairs.len(),
{
    if pairs.len() == 0 {
        Seq::empty()
    } else {
        let n = first_run_len(pairs);
        if 0 < n <= pairs.len() {
            seq![pairs.take(n as int)] + runs_of(pairs.skip(n as int))
        } else {
            Seq::empty()
        }
    }
}

/// The lines of `pairs`: its runs, without a last run that has no
/// reference side.
pub open spec fn lines_of(pairs: Seq<PairModel>) -> Seq<Seq<PairModel>> {
    let runs = runs_of(pairs);
    if runs.len() > 0 && !has_reference_side(runs.last()) {
        runs.drop_last()
    } else {
        runs
    }
}

/// A stretch without a line break in it, followed by a pair that closes the
/// line, is the first run of what it stands at the head of.
proof fn lemma_run_closed(head: Seq<PairModel>, rest: Seq<PairModel>)
    requires
        head.len() > 0,
        is_break(head.last()),
        forall|k: int| 0 <= k < head.len() - 1 ==> !is_break(#[trigger] head[k]),
    ensures
        first_run_len(head + rest) == head.len(),
        runs_of(head + rest) == seq![head] + runs_of(rest),
    decreases head.len(),
{
    let all = head + rest;
    if head.len() > 1 {
        assert(all.first() == head[0]);
        assert(all.drop_first() =~= head.drop_first() + rest);
        assert forall|k: int| 0 <= k < head.drop_first().len() - 1 implies !is_break(
            #[trigger] head.drop_first()[k],
        ) by {
            assert(head.drop_first()[k] == head[k + 1]);
        }
        lemma_run_closed(head.drop_first(), rest);
    } else {
        assert(all.first() == head[0]);
    }
    assert(all.take(head.len() as int) =~= head);
    assert(all.skip(head.len() as int) =~= rest);
}

/// A stretch without a line break in it, and not empty, is the one run of
/// itself.
proof fn lemma_run_open(tail: Seq<PairModel>)
    requires
        tail.len() > 0,
        forall|k: int| 0 <= k < tail.len() ==> !is_break(#[trigger] tail[k]),
    ensures
        first_run_len(tail) == tail.len(),
        runs_of(tail) == seq![tail],
    decreases tail.len(),
{
    assert(!is_break(tail[0]));
    if tail.len() > 1 {
        assert forall|k: int| 0 <= k < tail.drop_first().len() implies !is_break(
            #[trigger] tail.drop_first()[k],
        ) by {
            assert(tail.drop_first()[k] == tail[k + 1]);
        }
        lemma_run_open(tail.drop_first());
    } else {
        assert(first_run_len(tail.drop_first()) == 0);
    }
    assert(first_run_len(tail) == tail.len());
    assert(tail.take(tail.len() as int) =~= tail);
    assert(tail.skip(tail.len() as int).len() == 0);
    assert(runs_of(tail.skip(tail.len() as int)) =~= Seq::<Seq<PairModel>>::empty());
    assert(seq![tail] + Seq::<Seq<PairModel>>::empty() =~= seq![tail]);
}

/// Whether the text holds a line break.
pub fn has_line_break(text: &str) -> (r: bool)
    ensures
        r == text@.contains('\n'),
{
    broadcast use vstd::string::group_string_axioms;

    for c in it: text.chars()
        invariant
            it.seq() == text@,
            forall|k: int| 0 <= k < it.index() ==> text@[k] != '\n',
    {
        if c == '\n' {
            assert(text@[it.index()] == '\n');
            return true;
        }
    }
    false
}

/// Whether some pair of the line has a reference side.
pub fn line_has_reference(line: &Vec<AlignedPair>) -> (r: bool)
    ensures
        r == has_reference_side(line.deep_view()),
{
    let mut k: usize = 0;
    while k < line.len()
        invariant
            k <= line.len(),
            forall|t: int| 0 <= t < k ==> (#[trigger] line.deep_view()[t]).reference is None,
        decreases line.len() - k,
    {
        if line[k].reference.is_some() {
            assert(line.deep_view()[k as int].reference is Some);
            return true;
        }
        k += 1;
    }
    false
}

/// Groups the pairs of an alignment into lines. A line ends with the first
/// pair whose reference text holds a line break; what follows the last such
/// pair is a line of its own, unless it has no reference side at all, in
/// which case it is left out.
pub fn segment_lines(pairs: Vec<AlignedPair>) -> (lines: Vec<Vec<AlignedPair>>)
    ensures
        lines.deep_view() == lines_of(pairs.deep_view()),
{
    let ghost all = pairs.deep_view();
    let mut lines: Vec<Vec<AlignedPair>> = Vec::new();
    let mut current: Vec<AlignedPair> = Vec::new();
    proof {
        assert(current.deep_view() + all.skip(0) =~= all);
        assert(lines.deep_view() + runs_of(all) =~= runs_of(all));
    }
    for pair in it: pairs
        invariant
            it.seq() == pairs@,
            all == pairs.deep_view(),
            forall|r: int|
                0 <= r < lines.len() ==> has_reference_side(#[trigger] lines.deep_view()[r]),
            forall|k: int| 0 <= k < current.len() ==> !is_break(#[trigger] current.deep_view()[k]),
            runs_of(all) == lines.deep_view() + runs_of(current.deep_view() + all.skip(it.index())),
    {
        let ghost before = current.deep_view();
        let ghost rest = all.skip(it.index() + 1);
        let closes = match &pair.reference {
            Some(text) => has_line_break(text.as_str()),
            None => false,
        };
        assert(pair.deep_view() == all[it.index()]);
        assert(closes == is_break(pair.deep_view()));
        current.push(pair);
        proof {
            assert(current.deep_view() =~= before.push(all[it.index()]));
            assert(before + all.skip(it.index()) =~= current.deep_view() + rest);
        }
        if closes {
            proof {
                lemma_run_closed(current.deep_view(), rest);
            }
            let ghost done = lines.deep_view();
            lines.push(current);
            current = Vec::new();
            proof {
                let closed = before.push(all[it.index()]);
                assert(lines.deep_view() =~= done + seq![closed]);
                assert(closed[closed.len() - 1].reference is Some);
                assert(current.deep_view() =~= Seq::<PairModel>::empty());
                assert(current.deep_view() + rest =~= rest);
            }
        }
    }
    proof {
        assert(all.skip(all.len() as int) =~= Seq::<PairModel>::empty());
        assert(current.deep_view() + Seq::<PairModel>::empty() =~= current.deep_view());
    }
    if current.len() > 0 {
        proof {
            lemma_run_open(current.deep_view());
        }
        if line_has_reference(&current) {
            let ghost done = lines.deep_view();
            let ghost last = current.deep_view();
            lines.push(current);
            assert(lines.deep_view() =~= done + seq![last]);
        } else {
            assert((lines.deep_view() + seq![current.deep_view()]).drop_last()
                =~= lines.deep_view());
        }
    } else {
        proof {
            assert(current.deep_view() =~= Seq::<PairModel>::empty());
            assert(lines.deep_view() + Seq::<Seq<PairModel>>::empty() =~= lines.deep_view());
        }
    }
    lines
}

/// A run that a pair closes: its last pair closes a line, and no pair
/// before that does.
pub open spec fn is_closed_run(run: Seq<PairModel>) -> bool {
    &&& run.len() > 0
    &&& is_break(run.last())
    &&& forall|k: int| 0 <= k < run.len() - 1 ==> !is_break(#[trigger] run[k])
}

/// A run that nothing closes: it is not empty, and none of its pairs
/// closes a line.
pub open spec fn is_open_run(run: Seq<PairModel>) -> bool {
    &&& run.len() > 0
    &&& forall|k: int| 0 <= k < run.len() ==> !is_break(#[trigger] run[k])
}

/// Runs such as cutting yields them: each is closed, but for the last,
/// which may be open.
pub open spec fn is_cut(runs: Seq<Seq<PairModel>>) -> bool {
    forall|r: int|
        0 <= r < runs.len() ==> is_closed_run(#[trigger] runs[r]) || (r == runs.len() - 1
            && is_open_run(runs[r]))
}

/// The first run is closed, unless it is all there is and nothing closes
/// it.
proof fn lemma_first_run(pairs: Seq<PairModel>)
    requires
        pairs.len() > 0,
    ensures
        0 < first_run_len(pairs) <= pairs.len(),
        is_closed_run(pairs.take(first_run_len(pairs) as int)) || (first_run_len(pairs)
            == pairs.len() && is_open_run(pairs)),
    decreases pairs.len(),
{
    let n = first_run_len(pairs) as int;
    if is_break(pairs.first()) {
        assert(pairs.take(1).last() == pairs[0]);
    } else if pairs.len() == 1 {
        assert(first_run_len(pairs.drop_first()) == 0);
    } else {
        let rest = pairs.drop_first();
        lemma_first_run(rest);
        let m = first_run_len(rest) as int;
        let head = pairs.take(n);
        if is_closed_run(rest.take(m)) {
            assert(head.last() == rest.take(m).last());
            assert forall|k: int| 0 <= k < head.len() - 1 implies !is_break(#[trigger] head[k]) by {
                if k > 0 {
                    assert(head[k] == rest.take(m)[k - 1]);
                }
            }
        } else {
            assert forall|k: int| 0 <= k < pairs.len() implies !is_break(#[trigger] pairs[k]) by {
                if k > 0 {
                    assert(pairs[k] == rest[k - 1]);
                }
            }
        }
    }
}

/// Cutting yields a cut, and what is cut is the runs put together again.
pub proof fn lemma_runs_are_cut(pairs: Seq<PairModel>)
    ensures
        is_cut(runs_of(pairs)),
        runs_of(pairs).flatten() == pairs,
    decreases pairs.len(),
{
    if pairs.len() == 0 {
        assert(runs_of(pairs).flatten() =~= pairs);
    } else {
        lemma_first_run(pairs);
        let n = first_run_len(pairs) as int;
        let head = pairs.take(n);
        let rest = pairs.skip(n);
        lemma_runs_are_cut(rest);
        let runs = runs_of(pairs);
        assert(runs == seq![head] + runs_of(rest));
        assert(runs.first() == head);
        assert(runs.drop_first() =~= runs_of(rest));
        assert(runs.flatten() =~= head + rest);
        assert(head + rest =~= pairs);
        if !is_closed_run(head) {
            assert(rest.len() == 0);
            assert(head =~= pairs);
        }
        assert forall|r: int| 0 <= r < runs.len() implies is_closed_run(#[trigger] runs[r]) || (r
            == runs.len() - 1 && is_open_run(runs[r])) by {
            if r > 0 {
                assert(runs[r] == runs_of(rest)[r - 1]);
            }
        }
    }
}

/// A cut put together and cut again is the cut it was.
pub proof fn lemma_cut_again(runs: Seq<Seq<PairModel>>)
    requires
        is_cut(runs),
    ensures
        runs_of(runs.flatten()) == runs,
    decreases runs.len(),
{
    if runs.len() == 0 {
        assert(runs_of(runs.flatten()) =~= runs);
    } else {
        let head = runs.first();
        let rest = runs.drop_first();
        assert(is_cut(rest)) by {
            assert forall|r: int| 0 <= r < rest.len() implies is_closed_run(#[trigger] rest[r]) || (
            r == rest.len() - 1 && is_open_run(rest[r])) by {
                assert(rest[r] == runs[r + 1]);
            }
        }
        lemma_cut_again(rest);
        assert(runs.flatten() == head + rest.flatten());
        if is_closed_run(head) {
            lemma_run_closed(head, rest.flatten());
        } else {
            assert(rest.len() == 0);
            assert(rest.flatten() =~= Seq::<PairModel>::empty());
            assert(head + rest.flatten() =~= head);
            lemma_run_open(head);
        }
        assert(seq![head] + rest =~= runs);
    }
}

/// Segmenting is idempotent: the lines of some pairs, put together and
/// segmented again, are the same lines.
pub proof fn lemma_lines_of_lines(pairs: Seq<PairModel>)
    ensures
        lines_of(lines_of(pairs).flatten()) == lines_of(pairs),
{
    let runs = runs_of(pairs);
    let lines = lines_of(pairs);
    lemma_runs_are_cut(pairs);
    assert(is_cut(lines)) by {
        assert forall|r: int| 0 <= r < lines.len() implies is_closed_run(#[trigger] lines[r]) || (r
            == lines.len() - 1 && is_open_run(lines[r])) by {
            assert(lines[r] == runs[r]);
        }
    }
    lemma_cut_again(lines);
    if lines.len() > 0 {
        let last = lines.last();
        if lines.len() < runs.len() {
            assert(last == runs[lines.len() - 1]);
            assert(is_closed_run(last));
        }
        if is_closed_run(last) {
            assert(last[last.len() - 1].reference is Some);
        }
        assert(has_reference_side(last));
    }
}

/// Segmenting the same pairs again yields the same lines: whatever two
/// runs of [`segment_lines`] on equal pairs return, it is equal.
pub proof fn lemma_same_pairs_same_lines(
    pairs: Vec<AlignedPair>,
    again: Vec<AlignedPair>,
    first: Vec<Vec<AlignedPair>>,
    second: Vec<Vec<AlignedPair>>,
)
    requires
        pairs.deep_view() == again.deep_view(),
        first.deep_view() == lines_of(pairs.deep_view()),
        second.deep_view() == lines_of(again.deep_view()),
    ensures
        first.deep_view() == second.deep_view(),
{
}

} // verus!
