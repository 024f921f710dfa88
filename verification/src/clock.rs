//! The order of times as they are written.
//!
//! A time below a hundred hours is written with twelve characters, and
//! the later of two such times is also the later of the two as texts.

use vstd::prelude::*;
use crate::text::{decimal, digit_char, digits};
use crate::timing::{never_overlapping, Cue};
use crate::vtt::vtt_time;

verus! {

/// `a` comes before `b` in the order of texts: where the two first differ,
/// `a` has the lesser character, or `a` ends where `b` goes on.
pub open spec fn text_less(a: Seq<char>, b: Seq<char>) -> bool {
    exists|k: int| #[trigger] differ_at(a, b, k)
}

/// `a` and `b` are alike before position `k`, and there `a` has the lesser
/// character, or ends while `b` goes on.
pub open spec fn differ_at(a: Seq<char>, b: Seq<char>, k: int) -> bool {
    &&& 0 <= k <= a.len()
    &&& k <= b.len()
    &&& a.take(k) == b.take(k)
    &&& if k < a.len() && k < b.len() {
        (a[k] as u32) < (b[k] as u32)
    } else {
        k == a.len() && k < b.len()
    }
}

/// The hundredths of a second that can be written with two digits for the
/// hours: those of less than a hundred hours.
pub open spec fn is_clock_time(ts: i64) -> bool {
    0 <= ts < 36_000_000
}

/// A number below a hundred in two digits.
pub open spec fn two_digits(n: int) -> Seq<char> {
    seq![digit_char(n / 10), digit_char(n % 10)]
}

/// A number below a thousand in three digits.
pub open spec fn three_digits(n: int) -> Seq<char> {
    seq![digit_char(n / 100), digit_char((n / 10) % 10), digit_char(n % 10)]
}

/// The hours of a time.
pub open spec fn hours(ts: i64) -> int {
    ts / 360_000
}

/// The minutes of a time beyond its hours.
pub open spec fn minutes(ts: i64) -> int {
    (ts / 6_000) % 60
}

/// The seconds of a time beyond its minutes.
pub open spec fn seconds(ts: i64) -> int {
    (ts / 100) % 60
}

/// The thousandths of a second of a time beyond its seconds.
pub open spec fn thousandths(ts: i64) -> int {
    (ts % 100) * 10
}

/// Hours, minutes, seconds and thousandths of a second as digits with the
/// marks between them.
pub open spec fn clock(h: int, m: int, s: int, c: int) -> Seq<char> {
    two_digits(h) + seq![':'] + two_digits(m) + seq![':'] + two_digits(s) + seq!['.']
        + three_digits(c)
}

/// A time as its digits with the marks between them.
pub open spec fn clock_text(ts: i64) -> Seq<char> {
    clock(hours(ts), minutes(ts), seconds(ts), thousandths(ts))
}

/// The first of two times of day is the earlier: it has fewer hours, or as
/// many and fewer minutes, and so on.
pub open spec fn earlier(h1: int, m1: int, s1: int, c1: int, h2: int, m2: int, s2: int, c2: int) -> bool {
    h1 < h2 || (h1 == h2 && (m1 < m2 || (m1 == m2 && (s1 < s2 || (s1 == s2 && c1 < c2)))))
}

/// A number below a hundred is written with its two digits.
proof fn lemma_two_digits(n: int)
    requires
        0 <= n < 100,
    ensures
        decimal(n, 2) =~= two_digits(n),
{
    reveal_with_fuel(digits, 2);
    if n < 10 {
        assert(digits(n as nat) =~= seq![digit_char(n)]);
    } else {
        assert(digits((n / 10) as nat) =~= seq![digit_char(n / 10)]);
        assert(digits(n as nat) =~= seq![digit_char(n / 10), digit_char(n % 10)]);
    }
}

/// A number below a thousand is written with its three digits.
proof fn lemma_three_digits(n: int)
    requires
        0 <= n < 1000,
    ensures
        decimal(n, 3) =~= three_digits(n),
{
    reveal_with_fuel(digits, 3);
    if n < 10 {
        assert(digits(n as nat) =~= seq![digit_char(n)]);
    } else if n < 100 {
        assert(digits((n / 10) as nat) =~= seq![digit_char(n / 10)]);
        assert(digits(n as nat) =~= seq![digit_char(n / 10), digit_char(n % 10)]);
    } else {
        let t = n / 10;
        assert(digits((t / 10) as nat) =~= seq![digit_char(t / 10)]);
        assert(digits(t as nat) =~= seq![digit_char(t / 10), digit_char(t % 10)]);
        assert(digits(n as nat) =~= seq![
            digit_char(t / 10),
            digit_char(t % 10),
            digit_char(n % 10),
        ]);
    }
}

/// The parts of a time below a hundred hours are what is left over at each
/// step, they stay within their bounds, and they add up to the time.
proof fn lemma_parts(ts: i64)
    requires
        is_clock_time(ts),
    ensures
        0 <= hours(ts) < 100,
        0 <= minutes(ts) < 60,
        0 <= seconds(ts) < 60,
        0 <= thousandths(ts) < 1000,
        ts * 10 == 3_600_000 * hours(ts) + 60_000 * minutes(ts) + 1_000 * seconds(ts)
            + thousandths(ts),
        (ts * 10) / 1000 == ts / 100,
        ((ts * 10) / 1000) / 60 == ts / 6_000,
        (((ts * 10) / 1000) / 60) / 60 == ts / 360_000,
        (ts * 10) - 1000 * ((ts * 10) / 1000) == thousandths(ts),
        (ts / 100) - 60 * ((ts / 100) / 60) == seconds(ts),
        (ts / 6_000) - 60 * ((ts / 6_000) / 60) == minutes(ts),
{
    let t = ts as int;
    let s = t / 100;
    let m = s / 60;
    let h = m / 60;
    assert(t == 100 * s + t % 100);
    assert(s == 60 * m + s % 60);
    assert(m == 60 * h + m % 60);
    assert(m == t / 6_000);
    assert(h == t / 360_000);
    assert((t * 10) / 1000 == s);
}

/// A time below a hundred hours is written with twelve characters: its
/// digits and the marks between them.
pub proof fn lemma_clock_text(ts: i64)
    requires
        is_clock_time(ts),
    ensures
        vtt_time(ts) == clock_text(ts),
        vtt_time(ts).len() == 12,
{
    reveal_strlit(":");
    reveal_strlit(".");
    lemma_parts(ts);
    lemma_two_digits(hours(ts));
    lemma_two_digits(minutes(ts));
    lemma_two_digits(seconds(ts));
    lemma_three_digits(thousandths(ts));
    assert(":"@ =~= seq![':']);
    assert("."@ =~= seq!['.']);
}

/// The lesser of two numbers below a hundred comes first as a text.
proof fn lemma_two_digits_less(p: int, q: int)
    requires
        0 <= p < q < 100,
    ensures
        text_less(two_digits(p), two_digits(q)),
{
    let a = two_digits(p);
    let b = two_digits(q);
    if p / 10 != q / 10 {
        assert(a.take(0) =~= b.take(0));
        assert(differ_at(a, b, 0));
    } else {
        assert(a.take(1) =~= b.take(1));
        assert(differ_at(a, b, 1));
    }
}

/// The lesser of two numbers below a thousand comes first as a text.
proof fn lemma_three_digits_less(p: int, q: int)
    requires
        0 <= p < q < 1000,
    ensures
        text_less(three_digits(p), three_digits(q)),
{
    let a = three_digits(p);
    let b = three_digits(q);
    if p / 100 != q / 100 {
        assert(a.take(0) =~= b.take(0));
        assert(differ_at(a, b, 0));
    } else if (p / 10) % 10 != (q / 10) % 10 {
        assert(a.take(1) =~= b.take(1));
        assert(differ_at(a, b, 1));
    } else {
        assert(a.take(2) =~= b.take(2));
        assert(differ_at(a, b, 2));
    }
}

/// Of two texts that begin with texts of one length, that one comes first
/// whose beginning comes first.
proof fn lemma_less_at_head(a: Seq<char>, b: Seq<char>, rest_a: Seq<char>, rest_b: Seq<char>)
    requires
        a.len() == b.len(),
        text_less(a, b),
    ensures
        text_less(a + rest_a, b + rest_b),
{
    let k = choose|k: int| #[trigger] differ_at(a, b, k);
    assert((a + rest_a).take(k) =~= a.take(k));
    assert((b + rest_b).take(k) =~= b.take(k));
    assert(differ_at(a + rest_a, b + rest_b, k));
}

/// Of two texts that begin alike, that one comes first whose rest comes
/// first.
proof fn lemma_less_behind(head: Seq<char>, a: Seq<char>, b: Seq<char>)
    requires
        text_less(a, b),
    ensures
        text_less(head + a, head + b),
{
    let k = choose|k: int| #[trigger] differ_at(a, b, k);
    let n = head.len() as int;
    assert((head + a).take(n + k) =~= head + a.take(k));
    assert((head + b).take(n + k) =~= head + b.take(k));
    assert(differ_at(head + a, head + b, n + k));
}

/// The earlier of two times of day comes first as a text.
proof fn lemma_clock_less(h1: int, m1: int, s1: int, c1: int, h2: int, m2: int, s2: int, c2: int)
    requires
        0 <= h1 < 100 && 0 <= h2 < 100,
        0 <= m1 < 100 && 0 <= m2 < 100,
        0 <= s1 < 100 && 0 <= s2 < 100,
        0 <= c1 < 1000 && 0 <= c2 < 1000,
        earlier(h1, m1, s1, c1, h2, m2, s2, c2),
    ensures
        text_less(clock(h1, m1, s1, c1), clock(h2, m2, s2, c2)),
{
    let h = seq![':'];
    let d = seq!['.'];
    let (xh, xm, xs, xc) = (two_digits(h1), two_digits(m1), two_digits(s1), three_digits(c1));
    let (yh, ym, ys, yc) = (two_digits(h2), two_digits(m2), two_digits(s2), three_digits(c2));
    assert(clock(h1, m1, s1, c1) =~= xh + (h + (xm + (h + (xs + (d + xc))))));
    assert(clock(h2, m2, s2, c2) =~= yh + (h + (ym + (h + (ys + (d + yc))))));
    if h1 != h2 {
        lemma_two_digits_less(h1, h2);
        lemma_less_at_head(xh, yh, h + (xm + (h + (xs + (d + xc)))), h + (ym + (h + (ys + (d + yc)))));
    } else {
        if m1 != m2 {
            lemma_two_digits_less(m1, m2);
            lemma_less_at_head(xm, ym, h + (xs + (d + xc)), h + (ys + (d + yc)));
        } else {
            if s1 != s2 {
                lemma_two_digits_less(s1, s2);
                lemma_less_at_head(xs, ys, d + xc, d + yc);
            } else {
                lemma_three_digits_less(c1, c2);
                lemma_less_behind(d, xc, yc);
                lemma_less_behind(xs, d + xc, d + yc);
            }
            lemma_less_behind(h, xs + (d + xc), ys + (d + yc));
            lemma_less_behind(xm, h + (xs + (d + xc)), h + (ys + (d + yc)));
        }
        lemma_less_behind(h, xm + (h + (xs + (d + xc))), ym + (h + (ys + (d + yc))));
        lemma_less_behind(xh, h + (xm + (h + (xs + (d + xc)))), h + (ym + (h + (ys + (d + yc)))));
    }
}

/// Of two texts of one length, the one that comes first is not the other.
proof fn lemma_less_is_unlike(a: Seq<char>, b: Seq<char>)
    requires
        a.len() == b.len(),
        text_less(a, b),
    ensures
        a != b,
{
    let k = choose|k: int| #[trigger] differ_at(a, b, k);
    assert(a[k] != b[k]);
}

/// Of two times below a hundred hours, the earlier has the earlier time of
/// day.
proof fn lemma_parts_in_order(x: i64, y: i64)
    requires
        is_clock_time(x),
        is_clock_time(y),
        x < y,
    ensures
        earlier(
            hours(x),
            minutes(x),
            seconds(x),
            thousandths(x),
            hours(y),
            minutes(y),
            seconds(y),
            thousandths(y),
        ),
{
    lemma_parts(x);
    lemma_parts(y);
}

/// The later of two times below a hundred hours is also the later of the
/// two as they are written, and no two of them are written alike.
pub proof fn lemma_written_times_keep_order(x: i64, y: i64)
    requires
        is_clock_time(x),
        is_clock_time(y),
        x < y,
    ensures
        text_less(vtt_time(x), vtt_time(y)),
        vtt_time(x) != vtt_time(y),
{
    lemma_clock_text(x);
    lemma_clock_text(y);
    lemma_parts(x);
    lemma_parts(y);
    lemma_parts_in_order(x, y);
    lemma_clock_less(
        hours(x),
        minutes(x),
        seconds(x),
        thousandths(x),
        hours(y),
        minutes(y),
        seconds(y),
        thousandths(y),
    );
    lemma_less_is_unlike(vtt_time(x), vtt_time(y));
}

/// One written time is no later than another: the two are alike, or the
/// first comes first as a text.
pub open spec fn text_at_most(a: Seq<char>, b: Seq<char>) -> bool {
    a == b || text_less(a, b)
}

/// Cues that do not overlap are written in order: where the times are below
/// a hundred hours, the end of each cue, as it is written, is no later than
/// the start of the next, as that is written.
pub proof fn lemma_written_cues_keep_order(cues: Seq<Cue>, k: int)
    requires
        never_overlapping(cues),
        0 <= k < cues.len() - 1,
        is_clock_time(cues[k].end),
        is_clock_time(cues[k + 1].start),
    ensures
        text_at_most(vtt_time(cues[k].end), vtt_time(cues[k + 1].start)),
{
    if cues[k].end < cues[k + 1].start {
        lemma_written_times_keep_order(cues[k].end, cues[k + 1].start);
    }
}

} // verus!
