//! Cues written out as a WebVTT file.

use vstd::prelude::*;
use vstd::string::StringExecFns;
use crate::text::{decimal, decimal_text};
use crate::timing::{Cue, TimedLine};
use crate::transcript::toward_zero;

verus! {

/// What is left of `x` when whole multiples of `n` are taken from it
/// toward zero.
pub open spec fn left_over(x: int, n: int) -> int {
    x - n * toward_zero(x, n)
}

/// A time in hundredths of a second as hours, minutes, seconds and
/// thousandths of a second.
pub open spec fn vtt_time(ts: i64) -> Seq<char> {
    let ms = ts * 10;
    let s = toward_zero(ms, 1000);
    let min = toward_zero(s, 60);
    let h = toward_zero(min, 60);
    decimal(h, 2) + ":"@ + decimal(left_over(min, 60), 2) + ":"@ + decimal(left_over(s, 60), 2)
        + "."@ + decimal(left_over(ms, 1000), 3)
}

/// `x` divided by `n` toward zero, and what is left over.
fn split(x: i128, n: i128) -> (r: (i128, i128))
    requires
        n > 0,
        -0x8000_0000_0000_0000_0000 <= x <= 0x8000_0000_0000_0000_0000,
    ensures
        r.0 == toward_zero(x as int, n as int),
        r.1 == left_over(x as int, n as int),
{
    let q: i128 = if x >= 0 {
        x / n
    } else {
        -((-x) / n)
    };
    proof {
        let a = if x >= 0 {
            x as int
        } else {
            -x as int
        };
        assert(0 <= a / (n as int) <= a) by (nonlinear_arith)
            requires
                a >= 0,
                n > 0,
        ;
        assert(0 <= (n as int) * (a / (n as int)) <= a) by (nonlinear_arith)
            requires
                a >= 0,
                n > 0,
        ;
        assert((n as int) * -(a / (n as int)) == -((n as int) * (a / (n as int))))
            by (nonlinear_arith);
    }
    (q, x - n * q)
}

/// Writes a time in hundredths of a second the way a cue gives it.
pub fn vtt_ts(ts: i64) -> (r: String)
    ensures
        r@ == vtt_time(ts),
{
    let ms: i128 = ts as i128 * 10;
    let (s, ms_left) = split(ms, 1000);
    proof {
        let a = if ms >= 0 {
            ms as int
        } else {
            -ms as int
        };
        assert(0 <= a / 1000 <= a);
    }
    let (min, s_left) = split(s, 60);
    proof {
        let a = if s >= 0 {
            s as int
        } else {
            -s as int
        };
        assert(0 <= a / 60 <= a);
    }
    let (h, min_left) = split(min, 60);
    let mut r = decimal_text(h, 2);
    r.append(":");
    r.append(decimal_text(min_left, 2).as_str());
    r.append(":");
    r.append(decimal_text(s_left, 2).as_str());
    r.append(".");
    r.append(decimal_text(ms_left, 3).as_str());
    r
}

/// What a file begins with.
pub open spec fn vtt_header(language: Seq<char>) -> Seq<char> {
    "WEBVTT\nKind: captions\nLanguagee: "@ + language + "\n"@
}

/// One cue in a file: an empty line, the times, and the text.
pub open spec fn vtt_cue(cue: Cue) -> Seq<char> {
    "\n"@ + vtt_time(cue.start) + " --> "@ + vtt_time(cue.end) + "\n"@ + cue.text + "\n"@
}

/// A file with the cues, in order.
pub open spec fn vtt_of(language: Seq<char>, cues: Seq<Cue>) -> Seq<char>
    decreases cues.len(),
{
    if cues.len() == 0 {
        vtt_header(language)
    } else {
        vtt_of(language, cues.drop_last()) + vtt_cue(cues.last())
    }
}

/// Writes one cue: an empty line, the times, and the text.
pub fn cue_to_vtt(line: &TimedLine) -> (r: String)
    ensures
        r@ == vtt_cue(line.deep_view()),
{
    let mut r = String::new();
    r.append("\n");
    assert(r@ =~= "\n"@);
    r.append(vtt_ts(line.start).as_str());
    r.append(" --> ");
    r.append(vtt_ts(line.end).as_str());
    r.append("\n");
    r.append(line.text.as_str());
    r.append("\n");
    r
}

/// Writes the lines out as the text of a WebVTT file for the language.
pub fn timed_lines_to_vtt(language: &str, lines: &Vec<TimedLine>) -> (r: String)
    ensures
        r@ == vtt_of(language@, lines.deep_view()),
{
    let ghost cues = lines.deep_view();
    let mut out = String::new();
    out.append("WEBVTT\nKind: captions\nLanguagee: ");
    out.append(language);
    out.append("\n");
    proof {
        assert(out@ =~= vtt_header(language@));
        assert(cues.take(0) =~= Seq::<Cue>::empty());
    }
    let mut k: usize = 0;
    while k < lines.len()
        invariant
            cues == lines.deep_view(),
            k <= lines.len(),
            out@ == vtt_of(language@, cues.take(k as int)),
        decreases lines.len() - k,
    {
        proof {
            assert(lines[k as int].deep_view() == cues[k as int]);
            assert(cues.take(k + 1).drop_last() =~= cues.take(k as int));
            assert(cues.take(k + 1).last() == cues[k as int]);
        }
        let cue = cue_to_vtt(&lines[k]);
        out.append(cue.as_str());
        k += 1;
    }
    proof {
        assert(cues.take(k as int) =~= cues);
    }
    out
}

} // verus!
