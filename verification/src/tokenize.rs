//! Cutting a text into tokens.
//!
//! A tokenizer names the tokens of a text by the byte offsets between which
//! they stand. The one here cuts wherever whitespace begins or ends. Others
//! may be used in its place, such as one that cuts by a dictionary where
//! words are not set apart by whitespace; what they return is checked
//! before it is used.

use std::ops::Range;
use vstd::prelude::*;
use crate::text::{
    byte_len, byte_offset, char_is_whitespace, is_slice, is_whitespace, lemma_byte_offset_boundary,
    lemma_byte_offset_grows, lemma_byte_offset_step, len_utf8, part_of, slice_of,
};
use crate::token::views_of;

verus! {

/// The runs of `s` by index of their first character and index behind
/// their last: each run is whitespace throughout or free of it, no two
/// neighbours are of one kind, and whitespace that `s` begins with is in
/// none.
pub open spec fn runs(s: Seq<char>) -> Seq<(int, int)>
    decreases s.len(),
{
    if s.len() == 0 {
        Seq::empty()
    } else {
        let before = runs(s.drop_last());
        let n = s.len() as int;
        if before.len() == 0 {
            if char_is_whitespace(s.last()) {
                before
            } else {
                seq![(n - 1, n)]
            }
        } else if char_is_whitespace(s.last()) == char_is_whitespace(s[n - 2]) {
            before.drop_last().push((before.last().0, n))
        } else {
            before.push((n - 1, n))
        }
    }
}

/// The runs of `s` by byte offsets.
pub open spec fn whitespace_tokens(s: Seq<char>) -> Seq<(int, int)> {
    runs(s).map_values(|r: (int, int)| (byte_offset(s, r.0) as int, byte_offset(s, r.1) as int))
}

/// The runs of `s` as ranges of byte offsets.
pub open spec fn whitespace_cut(s: Seq<char>) -> Seq<Range<usize>> {
    whitespace_tokens(s).map_values(|t: (int, int)| (Range { start: t.0 as usize, end: t.1 as usize }))
}

/// The ranges as pairs of numbers.
pub open spec fn bounds_of(ranges: Seq<Range<usize>>) -> Seq<(int, int)> {
    ranges.map_values(|r: Range<usize>| (r.start as int, r.end as int))
}

/// A run that is not closed yet ends where the text ends.
proof fn lemma_runs_end(s: Seq<char>)
    ensures
        runs(s).len() > 0 ==> runs(s).last().1 == s.len() && 0 <= runs(s).last().0 < s.len(),
        runs(s).len() == 0 ==> forall|k: int| 0 <= k < s.len() ==> char_is_whitespace(#[trigger] s[k]),
    decreases s.len(),
{
    if s.len() > 0 {
        lemma_runs_end(s.drop_last());
        if runs(s.drop_last()).len() == 0 && char_is_whitespace(s.last()) {
            assert forall|k: int| 0 <= k < s.len() implies char_is_whitespace(#[trigger] s[k]) by {
                if k < s.len() - 1 {
                    assert(s.drop_last()[k] == s[k]);
                }
            }
        }
    }
}

/// Cuts the text wherever whitespace begins or ends, and returns the
/// pieces by their byte offsets, in order. Whitespace that the text begins
/// with is in no piece.
pub fn whitespace_ranges(text: &str) -> (ranges: Vec<Range<usize>>)
    ensures
        ranges@ == whitespace_cut(text@),
        bounds_of(ranges@) == whitespace_tokens(text@),
{
    broadcast use vstd::string::group_string_axioms;
    broadcast use vstd::slice::group_slice_axioms;

    let ghost s = text@;
    let total: usize = text.as_bytes().len();
    let mut ranges: Vec<Range<usize>> = Vec::new();
    let mut open: Option<(usize, bool)> = None;
    let mut offset: usize = 0;
    proof {
        assert(s.take(0) =~= Seq::<char>::empty());
        assert(byte_offset(s, 0) == 0);
    }
    for c in it: text.chars()
        invariant
            it.seq() == s,
            s == text@,
            total == byte_len(s),
            offset == byte_offset(s, it.index()),
            offset <= total,
            open is None ==> ranges.len() == 0 && runs(s.take(it.index())).len() == 0,
            open matches Some(run) ==> {
                let so_far = runs(s.take(it.index()));
                &&& it.index() > 0
                &&& so_far.len() == ranges.len() + 1
                &&& run.0 == byte_offset(s, so_far.last().0)
                &&& run.1 == char_is_whitespace(s[it.index() - 1])
                &&& so_far.last().1 == it.index()
            },
            forall|t: int|
                0 <= t < ranges.len() ==> {
                    &&& (#[trigger] ranges@[t]).start == byte_offset(
                        s,
                        runs(s.take(it.index()))[t].0,
                    )
                    &&& ranges@[t].end == byte_offset(s, runs(s.take(it.index()))[t].1)
                },
    {
        let ghost k = it.index();
        let ghost before = runs(s.take(k));
        let ghost after = runs(s.take(k + 1));
        proof {
            assert(s.take(k + 1).drop_last() =~= s.take(k));
            assert(s.take(k + 1).last() == c);
            if k > 0 {
                assert(s.take(k + 1)[k - 1] == s[k - 1]);
            }
            lemma_byte_offset_step(s, k);
            lemma_runs_end(s.take(k));
        }
        let white = is_whitespace(c);
        match open {
            None => {
                if !white {
                    open = Some((offset, false));
                }
            },
            Some((start, kind)) => {
                if white != kind {
                    ranges.push(start..offset);
                    open = Some((offset, white));
                }
            },
        }
        offset += len_utf8(c);
    }
    proof {
        assert(s.take(s.len() as int) =~= s);
    }
    match open {
        Some((start, _)) => {
            ranges.push(start..offset);
        },
        None => {},
    }
    assert(bounds_of(ranges@) =~= whitespace_tokens(s));
    assert(ranges@ =~= whitespace_cut(s)) by {
        assert forall|k: int| 0 <= k < ranges.len() implies ranges@[k] == whitespace_cut(s)[k] by {
            assert(bounds_of(ranges@)[k] == (ranges@[k].start as int, ranges@[k].end as int));
        }
    }
    ranges
}

/// Every range names a part of the text: it lies within the text, its
/// start is not behind its end, and both stand where a character begins.
pub open spec fn all_slices(text: Seq<char>, ranges: Seq<Range<usize>>) -> bool {
    forall|k: int|
        0 <= k < ranges.len() ==> is_slice(
            text,
            (#[trigger] ranges[k]).start as int,
            ranges[k].end as int,
        )
}

/// The texts that the ranges name in the text.
pub open spec fn parts_of(text: Seq<char>, ranges: Seq<Range<usize>>) -> Seq<Seq<char>> {
    ranges.map_values(|r: Range<usize>| part_of(text, r.start as int, r.end as int))
}

/// The tokens that the ranges name in the text, each as a string of its
/// own, or nothing where a range names no part of the text.
pub fn tokens_at(text: &str, ranges: &Vec<Range<usize>>) -> (r: Option<Vec<String>>)
    ensures
        r is Some <==> all_slices(text@, ranges@),
        r matches Some(tokens) ==> views_of(tokens@) == parts_of(text@, ranges@),
{
    let mut tokens: Vec<String> = Vec::new();
    let mut k: usize = 0;
    while k < ranges.len()
        invariant
            k <= ranges.len(),
            tokens.len() == k,
            forall|t: int|
                0 <= t < k ==> is_slice(
                    text@,
                    (#[trigger] ranges@[t]).start as int,
                    ranges@[t].end as int,
                ),
            forall|t: int|
                0 <= t < k ==> (#[trigger] tokens@[t])@ == part_of(
                    text@,
                    ranges@[t].start as int,
                    ranges@[t].end as int,
                ),
        decreases ranges.len() - k,
    {
        match slice_of(text, ranges[k].start, ranges[k].end) {
            Some(part) => {
                proof {
                    vstd::utf8::encode_utf8_decode_utf8(part@);
                }
                tokens.push(part.to_owned());
            },
            None => {
                return None;
            },
        }
        k += 1;
    }
    assert(views_of(tokens@) =~= parts_of(text@, ranges@));
    Some(tokens)
}

/// Which tokenizer a language is cut with.
#[derive(Clone, Copy, Debug, PartialEq, Eq)]
pub enum TokenizerChoice {
    /// The language is cut with a dictionary.
    Dictionary,
    /// The language is cut at whitespace, as it should be.
    Whitespace,
    /// The language is cut at whitespace for want of a dictionary, and
    /// poorly so.
    WhitespaceForWantOfDictionary,
}

/// The language is Japanese, by its code.
pub open spec fn is_japanese(language: Seq<char>) -> bool {
    language == "ja"@
}

/// Says which tokenizer to cut a language with: a dictionary for
/// Japanese, where there is one, and whitespace for any other.
pub fn choose_tokenizer(language: &str, has_dictionary: bool) -> (r: TokenizerChoice)
    ensures
        r == if !is_japanese(language@) {
            TokenizerChoice::Whitespace
        } else if has_dictionary {
            TokenizerChoice::Dictionary
        } else {
            TokenizerChoice::WhitespaceForWantOfDictionary
        },
{
    if language.to_owned() == "ja".to_owned() {
        if has_dictionary {
            TokenizerChoice::Dictionary
        } else {
            TokenizerChoice::WhitespaceForWantOfDictionary
        }
    } else {
        TokenizerChoice::Whitespace
    }
}

/// Every run begins within the text and ends behind where it begins.
pub proof fn lemma_runs_within(s: Seq<char>)
    ensures
        forall|t: int|
            0 <= t < runs(s).len() ==> 0 <= (#[trigger] runs(s)[t]).0 < runs(s)[t].1 <= s.len(),
    decreases s.len(),
{
    if s.len() > 0 {
        lemma_runs_within(s.drop_last());
        lemma_runs_end(s.drop_last());
        let before = runs(s.drop_last());
        assert forall|t: int| 0 <= t < runs(s).len() implies 0 <= (#[trigger] runs(s)[t]).0 < runs(
            s,
        )[t].1 <= s.len() by {
            if t < before.len() - 1 {
                assert(runs(s)[t] == before[t]);
            } else if t < before.len() {
                assert(runs(s)[t].0 == before[t].0);
            }
        }
    }
}

/// What whitespace cuts a text into are parts of the text, none of them
/// empty.
pub proof fn lemma_whitespace_tokens_are_slices(s: Seq<char>, ranges: Seq<Range<usize>>)
    requires
        bounds_of(ranges) == whitespace_tokens(s),
    ensures
        all_slices(s, ranges),
        forall|k: int|
            0 <= k < ranges.len() ==> (#[trigger] ranges[k]).start < ranges[k].end <= byte_len(s),
{
    lemma_runs_within(s);
    assert(ranges.len() == runs(s).len()) by {
        assert(bounds_of(ranges).len() == ranges.len());
    }
    assert forall|k: int| 0 <= k < ranges.len() implies is_slice(
        s,
        (#[trigger] ranges[k]).start as int,
        ranges[k].end as int,
    ) && ranges[k].start < ranges[k].end <= byte_len(s) by {
        let run = runs(s)[k];
        assert(bounds_of(ranges)[k] == (ranges[k].start as int, ranges[k].end as int));
        assert(whitespace_tokens(s)[k] == (byte_offset(s, run.0) as int, byte_offset(s, run.1) as int));
        lemma_byte_offset_boundary(s, run.0);
        lemma_byte_offset_boundary(s, run.1);
        lemma_byte_offset_grows(s, run.0, run.1);
    }
}

} // verus!
