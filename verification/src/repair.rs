//! Putting together the tokens that the recognizer cut in the middle of a
//! character.
//!
//! The recognizer may end a token between the bytes of one character. The
//! bytes of such a token are no text; they are kept until the tokens that
//! follow have completed them, and the whole is then taken as one token.

use vstd::prelude::*;
use crate::text::{ends_with, starts_with, text_of_bytes};

verus! {

/// A token as the recognizer hands it over: the bytes of its text, which
/// may be no valid UTF-8, and its times.
#[derive(Clone, Debug, PartialEq, Eq)]
pub struct RawToken {
    pub text: Vec<u8>,
    pub t0: i64,
    pub t1: i64,
}

/// A [`RawToken`] as a mathematical value.
pub struct RawModel {
    pub text: Seq<u8>,
    pub t0: i64,
    pub t1: i64,
}

impl DeepView for RawToken {
    type V = RawModel;

    open spec fn deep_view(&self) -> RawModel {
        RawModel { text: self.text@, t0: self.t0, t1: self.t1 }
    }
}

/// A token with a text: one token of the recognizer, or several in a row
/// that complete each other. It has the times of the first of them.
#[derive(Clone, Debug, PartialEq, Eq)]
pub struct Piece {
    pub text: String,
    pub t0: i64,
    pub t1: i64,
    /// The index of the first token it is made of.
    pub first: usize,
    /// The number of tokens it is made of.
    pub count: usize,
}

/// A [`Piece`] as a mathematical value.
pub struct PieceModel {
    pub text: Seq<char>,
    pub t0: i64,
    pub t1: i64,
    pub first: usize,
    pub count: usize,
}

impl DeepView for Piece {
    type V = PieceModel;

    open spec fn deep_view(&self) -> PieceModel {
        PieceModel {
            text: self.text@,
            t0: self.t0,
            t1: self.t1,
            first: self.first,
            count: self.count,
        }
    }
}

/// The tokens of a segment with their texts put together, and the number
/// of bytes at the end that nothing completed.
#[derive(Clone, Debug, PartialEq, Eq)]
pub struct Mended {
    pub pieces: Vec<Piece>,
    pub left_over: usize,
}

/// What is known after some tokens.
pub struct Mending {
    /// The pieces that are complete.
    pub pieces: Seq<PieceModel>,
    /// The bytes that are kept until they are completed.
    pub broken: Seq<u8>,
    /// The index of the token that the kept bytes begin with.
    pub first: int,
    /// The times of that token.
    pub t0: i64,
    pub t1: i64,
}

/// What is known after the tokens.
pub open spec fn mending(tokens: Seq<RawModel>) -> Mending
    decreases tokens.len(),
{
    if tokens.len() == 0 {
        Mending { pieces: Seq::empty(), broken: Seq::empty(), first: 0, t0: 0, t1: 0 }
    } else {
        let m = mending(tokens.drop_last());
        let t = tokens.last();
        let i = tokens.len() - 1;
        if m.broken.len() == 0 && vstd::utf8::valid_utf8(t.text) {
            Mending {
                pieces: m.pieces.push(
                    PieceModel {
                        text: vstd::utf8::decode_utf8(t.text),
                        t0: t.t0,
                        t1: t.t1,
                        first: i as usize,
                        count: 1,
                    },
                ),
                ..m
            }
        } else {
            let begun = if m.broken.len() == 0 {
                Mending { first: i, t0: t.t0, t1: t.t1, ..m }
            } else {
                m
            };
            let broken = begun.broken + t.text;
            if broken.len() > 0 && vstd::utf8::valid_utf8(broken) {
                Mending {
                    pieces: begun.pieces.push(
                        PieceModel {
                            text: vstd::utf8::decode_utf8(broken),
                            t0: begun.t0,
                            t1: begun.t1,
                            first: begun.first as usize,
                            count: (i - begun.first + 1) as usize,
                        },
                    ),
                    broken: Seq::empty(),
                    ..begun
                }
            } else {
                Mending { broken, ..begun }
            }
        }
    }
}

/// The token that kept bytes begin with is one of the tokens seen.
proof fn lemma_mending_first(tokens: Seq<RawModel>)
    ensures
        mending(tokens).broken.len() > 0 ==> 0 <= mending(tokens).first < tokens.len(),
        mending(tokens).broken.len() == 0 ==> 0 <= mending(tokens).first <= tokens.len(),
    decreases tokens.len(),
{
    if tokens.len() > 0 {
        lemma_mending_first(tokens.drop_last());
    }
}

/// Puts together the tokens of a segment that complete each other.
///
/// A token whose bytes are a text is taken as it is. A token whose bytes
/// are no text is kept, and the tokens after it are added to it until the
/// bytes of all of them are a text; that text is one piece, with the times
/// of the first of them. Bytes that are still kept when the tokens end are
/// in no piece; their number is reported.
pub fn mend_tokens(tokens: &Vec<RawToken>) -> (r: Mended)
    ensures
        r.pieces.deep_view() == mending(tokens.deep_view()).pieces,
        r.left_over == mending(tokens.deep_view()).broken.len(),
{
    let ghost model = tokens.deep_view();
    let mut pieces: Vec<Piece> = Vec::new();
    let mut broken: Vec<u8> = Vec::new();
    let mut first: usize = 0;
    let mut t0: i64 = 0;
    let mut t1: i64 = 0;
    let mut i: usize = 0;
    proof {
        assert(model.take(0) =~= Seq::<RawModel>::empty());
        assert(pieces.deep_view() =~= Seq::<PieceModel>::empty());
    }
    while i < tokens.len()
        invariant
            model == tokens.deep_view(),
            i <= tokens.len(),
            mending(model.take(i as int)) == (Mending {
                pieces: pieces.deep_view(),
                broken: broken@,
                first: first as int,
                t0,
                t1,
            }),
        decreases tokens.len() - i,
    {
        let token = &tokens[i];
        let ghost before = pieces.deep_view();
        proof {
            assert(token.deep_view() == model[i as int]);
            assert(model.take(i + 1).drop_last() =~= model.take(i as int));
            assert(model.take(i + 1).last() == model[i as int]);
            lemma_mending_first(model.take(i as int));
        }
        let whole = if broken.len() == 0 {
            text_of_bytes(token.text.as_slice())
        } else {
            None
        };
        match whole {
            Some(text) => {
                proof {
                    vstd::utf8::encode_utf8_decode_utf8(text@);
                }
                pieces.push(
                    Piece { text: text.to_owned(), t0: token.t0, t1: token.t1, first: i, count: 1 },
                );
                assert(pieces.deep_view() =~= before.push(
                    mending(model.take(i + 1)).pieces.last(),
                ));
            },
            None => {
                if broken.len() == 0 {
                    first = i;
                    t0 = token.t0;
                    t1 = token.t1;
                }
                let ghost kept = broken@;
                let mut k: usize = 0;
                while k < token.text.len()
                    invariant
                        k <= token.text.len(),
                        broken@ == kept + token.text@.take(k as int),
                    decreases token.text.len() - k,
                {
                    broken.push(token.text[k]);
                    k += 1;
                    assert(broken@ =~= kept + token.text@.take(k as int));
                }
                assert(broken@ =~= kept + token.text@) by {
                    assert(token.text@.take(k as int) =~= token.text@);
                }
                let mended: Option<String> = if broken.len() > 0 {
                    match text_of_bytes(broken.as_slice()) {
                        Some(text) => {
                            proof {
                                vstd::utf8::encode_utf8_decode_utf8(text@);
                            }
                            Some(text.to_owned())
                        },
                        None => None,
                    }
                } else {
                    None
                };
                match mended {
                    Some(text) => {
                        pieces.push(Piece { text, t0, t1, first, count: i - first + 1 });
                        broken = Vec::new();
                        assert(pieces.deep_view() =~= before.push(
                            mending(model.take(i + 1)).pieces.last(),
                        ));
                    },
                    None => {},
                }
            },
        }
        i += 1;
    }
    proof {
        assert(model.take(i as int) =~= model);
    }
    Mended { pieces, left_over: broken.len() }
}

/// A text that the recognizer puts out for itself, not for the listener:
/// it begins with a bracket and an underscore, and ends with a bracket.
pub open spec fn is_marker(text: Seq<char>) -> bool {
    "[_"@.is_prefix_of(text) && "]"@.is_suffix_of(text)
}

/// Whether the text is one that the recognizer puts out for itself.
pub fn is_special(text: &str) -> (r: bool)
    ensures
        r == is_marker(text@),
{
    starts_with(text, "[_") && ends_with(text, "]")
}

} // verus!
