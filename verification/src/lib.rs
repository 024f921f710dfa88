//! Times the lines of a text from a transcript of the same speech.
//!
//! A speech recognizer hears what was said and when, and gets many words
//! wrong; a script has the words right and no times. This library aligns
//! the tokens of the two at the least cost ([`align`], [`cost`]), groups
//! what was paired into the lines of the script ([`lines`]), and gives each
//! line the times of what was heard for it ([`timing`]). [`sync`] runs the
//! three on a transcript ([`transcript`]) and a text, both cut into tokens
//! at whitespace or by a tokenizer of the caller's ([`tokenize`]);
//! [`vtt`] writes the result out. [`vad`] and [`repair`]
//! serve the recognizer: the one finds the speech in a recording, the other
//! mends the tokens it returns; [`averror`] reads the status codes of the
//! audio decoder.
//!
//! Every function states what it returns, and is proved to return it. What
//! is taken on trust of the standard library stands in [`text`]. [`optimal`]
//! proves that an alignment has the least cost there is, [`diagonal`]
//! when a sequence aligned with itself pairs index with index, and
//! [`clock`] that times keep their order when they are written.

pub mod align;
pub mod averror;
pub mod clock;
pub mod cost;
pub mod diagonal;
pub mod lines;
pub mod optimal;
pub mod repair;
pub mod sync;
pub mod text;
pub mod timing;
pub mod token;
pub mod tokenize;
pub mod transcript;
pub mod vad;
pub mod vtt;
