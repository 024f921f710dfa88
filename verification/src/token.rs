//! Tokens and the comparison key derived from their text.

use vstd::prelude::*;
use crate::text::{char_from_u32, char_lowercase, push_char, to_lowercase};

verus! {

/// The Hiragana counterpart of a Katakana character between U+30A1 and
/// U+30F4; every other character is itself.
pub open spec fn hiragana_of(c: char) -> char {
    if 0x30A1 <= c as u32 && c as u32 <= 0x30F4 {
        ((c as u32 - 0x60) as u32) as char
    } else {
        c
    }
}

/// Folds one Katakana character onto Hiragana.
pub fn katakana2hiragana(chr: char) -> (r: char)
    ensures
        r == hiragana_of(chr),
{
    let value: u32 = chr as u32;
    if 0x30A1 <= value && value <= 0x30F4 {
        match char_from_u32(value - 96) {
            Some(c) => c,
            None => chr,
        }
    } else {
        chr
    }
}

/// The comparison key of a text: every character lowercased, then folded
/// onto Hiragana.
pub open spec fn normalized(s: Seq<char>) -> Seq<char>
    decreases s.len(),
{
    if s.len() == 0 {
        Seq::empty()
    } else {
        normalized(s.drop_last()) + char_lowercase(s.last()).map_values(|c: char| hiragana_of(c))
    }
}

/// A token: its text as it was written, and the key by which it is
/// compared.
#[derive(Clone, Debug, PartialEq, Eq)]
pub struct TokenInfo {
    pub text: String,
    pub normalized: String,
}

impl TokenInfo {
    /// The key is derived from the text and from nothing else.
    pub open spec fn wf(&self) -> bool {
        self.normalized@ == normalized(self.text@)
    }

    /// The token with this text; its key is derived here, once.
    pub fn new(text: String) -> (r: Self)
        ensures
            r.text@ == text@,
            r.wf(),
    {
        let key = normalize(text.as_str());
        TokenInfo { text, normalized: key }
    }
}

/// Derives the comparison key of a text: every character is lowercased,
/// and Katakana is folded onto Hiragana, so that texts that differ in case
/// or script only have one key.
pub fn normalize(text: &str) -> (key: String)
    ensures
        key@ == normalized(text@),
{
    broadcast use vstd::string::group_string_axioms;

    let mut key = String::new();
    for c in it: text.chars()
        invariant
            it.seq() == text@,
            key@ == normalized(text@.take(it.index())),
    {
        let ghost before = key@;
        let lower = to_lowercase(c);
        let mut k: usize = 0;
        while k < lower.len()
            invariant
                k <= lower.len(),
                key@ == before + lower@.take(k as int).map_values(|c: char| hiragana_of(c)),
            decreases lower.len() - k,
        {
            push_char(&mut key, katakana2hiragana(lower[k]));
            k += 1;
            assert(lower@.take(k as int).map_values(|c: char| hiragana_of(c)) =~= lower@.take(
                k - 1,
            ).map_values(|c: char| hiragana_of(c)).push(hiragana_of(lower@[k - 1])));
        }
        proof {
            let n = it.index();
            assert(lower@.take(lower@.len() as int) =~= lower@);
            assert(text@.take(n + 1).drop_last() =~= text@.take(n));
            assert(text@.take(n + 1).last() == c);
        }
    }
    assert(text@.take(text@.len() as int) =~= text@);
    key
}

/// The texts of a sequence of tokens.
pub open spec fn texts_of(tokens: Seq<TokenInfo>) -> Seq<Seq<char>> {
    tokens.map_values(|t: TokenInfo| t.text@)
}

/// The texts of a sequence of strings.
pub open spec fn views_of(texts: Seq<String>) -> Seq<Seq<char>> {
    texts.map_values(|s: String| s@)
}

/// Derives the key of every text, in order.
pub fn token_infos(texts: Vec<String>) -> (r: Vec<TokenInfo>)
    ensures
        texts_of(r@) == views_of(texts@),
        forall|i: int| 0 <= i < r.len() ==> (#[trigger] r@[i]).wf(),
{
    let mut r: Vec<TokenInfo> = Vec::new();
    for text in it: texts
        invariant
            it.seq() == texts@,
            r.len() == it.index(),
            forall|i: int| 0 <= i < r.len() ==> (#[trigger] r@[i]).wf(),
            forall|i: int| 0 <= i < r.len() ==> (#[trigger] r@[i]).text@ == texts@[i]@,
    {
        r.push(TokenInfo::new(text));
    }
    assert(texts_of(r@) =~= views_of(texts@));
    r
}

} // verus!
