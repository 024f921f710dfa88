//! Characters and strings: the primitives of the standard library that the
//! rest of the crate builds on, each with the contract the verifier is
//! asked to trust, and what is proved of texts and their bytes.

use vstd::prelude::*;

verus! {

/// The lowercase mapping of a character, as `char::to_lowercase` yields it:
/// one character for most, several for a few.
pub uninterp spec fn char_lowercase(c: char) -> Seq<char>;

/// Whether a character is alphabetic or numeric, as `char::is_alphanumeric`
/// reports it.
pub uninterp spec fn char_is_alphanumeric(c: char) -> bool;

/// Whether a character has the `White_Space` property of Unicode: the
/// controls from tab to carriage return, the space, the next-line control,
/// the no-break spaces, the Ogham space mark, the spaces of fixed width,
/// the line and paragraph separators, the medium mathematical space, and
/// the ideographic space.
pub open spec fn char_is_whitespace(c: char) -> bool {
    let v = c as u32;
    ||| 0x0009 <= v <= 0x000D
    ||| v == 0x0020
    ||| v == 0x0085
    ||| v == 0x00A0
    ||| v == 0x1680
    ||| 0x2000 <= v <= 0x200A
    ||| v == 0x2028
    ||| v == 0x2029
    ||| v == 0x202F
    ||| v == 0x205F
    ||| v == 0x3000
}

/// Whether `v` is a Unicode scalar value: a code point that is no surrogate.
pub open spec fn is_scalar_value(v: u32) -> bool {
    v <= 0xD7FF || (0xE000 <= v && v <= 0x10FFFF)
}

/// Calls `char::to_lowercase` and collects the characters it yields. The
/// result is the lowercase mapping named by [`char_lowercase`].
#[verifier::external_body]
pub(crate) fn to_lowercase(c: char) -> (r: Vec<char>)
    ensures
        r@ == char_lowercase(c),
{
    c.to_lowercase().collect()
}

/// Calls `char::is_alphanumeric`; the result is named by
/// [`char_is_alphanumeric`].
#[verifier::external_body]
pub(crate) fn is_alphanumeric(c: char) -> (r: bool)
    ensures
        r == char_is_alphanumeric(c),
{
    c.is_alphanumeric()
}

/// Calls `char::is_whitespace`, which says whether the character has the
/// `White_Space` property.
#[verifier::external_body]
pub(crate) fn is_whitespace(c: char) -> (r: bool)
    ensures
        r == char_is_whitespace(c),
{
    c.is_whitespace()
}

/// Calls `char::from_u32`, which gives the character with code `v` exactly
/// when `v` is a scalar value.
#[verifier::external_body]
pub(crate) fn char_from_u32(v: u32) -> (r: Option<char>)
    ensures
        is_scalar_value(v) ==> r == Some(v as char),
        !is_scalar_value(v) ==> r is None,
{
    char::from_u32(v)
}

/// Calls `String::push`, which appends one character.
#[verifier::external_body]
pub(crate) fn push_char(s: &mut String, c: char)
    ensures
        final(s)@ == old(s)@.push(c),
{
    s.push(c)
}

/// `needle` occurs in `hay` as a run of consecutive characters.
pub open spec fn is_substring_of(needle: Seq<char>, hay: Seq<char>) -> bool {
    exists|k: int|
        0 <= k && k + needle.len() <= hay.len() && #[trigger] hay.subrange(k, k + needle.len())
            == needle
}

/// `s` without the whitespace it starts with.
pub open spec fn trim_start(s: Seq<char>) -> Seq<char>
    decreases s.len(),
{
    if s.len() > 0 && char_is_whitespace(s.first()) {
        trim_start(s.drop_first())
    } else {
        s
    }
}

/// `s` without the whitespace it ends with.
pub open spec fn trim_end(s: Seq<char>) -> Seq<char>
    decreases s.len(),
{
    if s.len() > 0 && char_is_whitespace(s.last()) {
        trim_end(s.drop_last())
    } else {
        s
    }
}

/// `s` without the whitespace around it.
pub open spec fn trimmed(s: Seq<char>) -> Seq<char> {
    trim_end(trim_start(s))
}

/// The number of bytes that `s` takes in UTF-8.
pub open spec fn byte_len(s: Seq<char>) -> nat {
    vstd::utf8::encode_utf8(s).len()
}

/// Calls `str::trim`, which removes leading and trailing whitespace, where
/// whitespace is what `char::is_whitespace` says it is.
#[verifier::external_body]
pub(crate) fn trim(s: &str) -> (r: &str)
    ensures
        r@ == trimmed(s@),
{
    s.trim()
}

/// Calls `str::starts_with` with a string as the pattern: whether `s`
/// begins with `prefix`.
#[verifier::external_body]
pub(crate) fn starts_with(s: &str, prefix: &str) -> (r: bool)
    ensures
        r == prefix@.is_prefix_of(s@),
{
    s.starts_with(prefix)
}

/// Calls `str::ends_with` with a string as the pattern: whether `s` ends
/// with `suffix`.
#[verifier::external_body]
pub(crate) fn ends_with(s: &str, suffix: &str) -> (r: bool)
    ensures
        r == suffix@.is_suffix_of(s@),
{
    s.ends_with(suffix)
}

/// Calls `str::contains` with a string as the pattern: whether `needle`
/// occurs somewhere in `s`.
#[verifier::external_body]
pub(crate) fn contains(s: &str, needle: &str) -> (r: bool)
    ensures
        r == is_substring_of(needle@, s@),
{
    s.contains(needle)
}

/// A text that is not empty takes at least one byte.
pub proof fn lemma_byte_len_positive(s: Seq<char>)
    requires
        s.len() > 0,
    ensures
        byte_len(s) > 0,
{
    assert(vstd::utf8::encode_utf8(s) == vstd::utf8::encode_scalar(s[0] as u32)
        + vstd::utf8::encode_utf8(s.drop_first()));
}

/// The number of bytes before the character at index `k` of `s` in UTF-8.
pub open spec fn byte_offset(s: Seq<char>, k: int) -> nat {
    byte_len(s.take(k))
}

/// Calls `char::len_utf8`: the number of bytes that the character takes in
/// UTF-8.
#[verifier::external_body]
pub(crate) fn len_utf8(c: char) -> (r: usize)
    ensures
        r == vstd::utf8::encode_scalar(c as u32).len(),
        1 <= r <= 4,
{
    c.len_utf8()
}

/// Calls `str::get` with the range from `start` to `end`: the part of `s`
/// between the two byte offsets, where both lie within `s`, in order, and
/// on the boundary of a character; nothing otherwise.
#[verifier::external_body]
pub(crate) fn slice_of<'a>(s: &'a str, start: usize, end: usize) -> (r: Option<&'a str>)
    ensures
        r is Some <==> is_slice(s@, start as int, end as int),
        r is Some ==> vstd::utf8::encode_utf8(r->0@) == vstd::utf8::encode_utf8(s@).subrange(
            start as int,
            end as int,
        ),
{
    s.get(start..end)
}

/// The bytes from `start` to `end` of the text are a text of their own.
pub open spec fn is_slice(s: Seq<char>, start: int, end: int) -> bool {
    &&& 0 <= start <= end <= byte_len(s)
    &&& vstd::utf8::is_char_boundary(vstd::utf8::encode_utf8(s), start)
    &&& vstd::utf8::is_char_boundary(vstd::utf8::encode_utf8(s), end)
}

/// The text that the bytes from `start` to `end` of `s` spell.
pub open spec fn part_of(s: Seq<char>, start: int, end: int) -> Seq<char> {
    vstd::utf8::decode_utf8(vstd::utf8::encode_utf8(s).subrange(start, end))
}

/// The bytes of two texts put together are the bytes of the one and the
/// bytes of the other.
pub proof fn lemma_encode_concat(a: Seq<char>, b: Seq<char>)
    ensures
        vstd::utf8::encode_utf8(a + b) == vstd::utf8::encode_utf8(a) + vstd::utf8::encode_utf8(b),
        byte_len(a + b) == byte_len(a) + byte_len(b),
    decreases a.len(),
{
    if a.len() == 0 {
        assert(a + b =~= b);
        assert(vstd::utf8::encode_utf8(a) + vstd::utf8::encode_utf8(b) =~= vstd::utf8::encode_utf8(
            b,
        ));
    } else {
        assert((a + b).drop_first() =~= a.drop_first() + b);
        assert((a + b)[0] == a[0]);
        lemma_encode_concat(a.drop_first(), b);
        assert(vstd::utf8::encode_utf8(a + b) =~= vstd::utf8::encode_utf8(a)
            + vstd::utf8::encode_utf8(b));
    }
}

/// The byte offset of a character is that of the one before it and the
/// bytes that that one takes; no offset exceeds the length of the text.
pub proof fn lemma_byte_offset_step(s: Seq<char>, k: int)
    requires
        0 <= k < s.len(),
    ensures
        byte_offset(s, k + 1) == byte_offset(s, k) + vstd::utf8::encode_scalar(s[k] as u32).len(),
        byte_offset(s, k + 1) <= byte_len(s),
{
    let one = seq![s[k]];
    assert(s.take(k + 1) =~= s.take(k) + one);
    lemma_encode_concat(s.take(k), one);
    assert(vstd::utf8::encode_utf8(one) =~= vstd::utf8::encode_scalar(s[k] as u32)) by {
        assert(one.drop_first().len() == 0);
        assert(vstd::utf8::encode_utf8(one.drop_first()) =~= Seq::<u8>::empty());
    }
    assert(s =~= s.take(k + 1) + s.skip(k + 1));
    lemma_encode_concat(s.take(k + 1), s.skip(k + 1));
}

/// Every character of a text begins on a boundary, and so does what comes
/// behind the last.
pub proof fn lemma_byte_offset_boundary(s: Seq<char>, k: int)
    requires
        0 <= k <= s.len(),
    ensures
        vstd::utf8::is_char_boundary(vstd::utf8::encode_utf8(s), byte_offset(s, k) as int),
        byte_offset(s, k) <= byte_len(s),
    decreases s.len(),
{
    let bytes = vstd::utf8::encode_utf8(s);
    vstd::utf8::encode_utf8_valid_utf8(s);
    if k == 0 {
        assert(s.take(0) =~= Seq::<char>::empty());
    } else {
        let rest = s.drop_first();
        let one = seq![s[0]];
        lemma_byte_offset_boundary(rest, k - 1);
        vstd::utf8::encode_utf8_first_scalar(s);
        assert(vstd::utf8::pop_first_scalar(bytes) =~= vstd::utf8::encode_utf8(rest));
        assert(s.take(k) =~= one + rest.take(k - 1));
        lemma_encode_concat(one, rest.take(k - 1));
        assert(vstd::utf8::encode_utf8(one) =~= vstd::utf8::encode_scalar(s[0] as u32)) by {
            assert(one.drop_first().len() == 0);
            assert(vstd::utf8::encode_utf8(one.drop_first()) =~= Seq::<u8>::empty());
        }
        assert(s =~= one + rest);
        lemma_encode_concat(one, rest);
        assert(byte_offset(s, k) == vstd::utf8::length_of_first_scalar(bytes) + byte_offset(
            rest,
            k - 1,
        ));
    }
}

/// A character that comes later begins later.
pub proof fn lemma_byte_offset_grows(s: Seq<char>, j: int, k: int)
    requires
        0 <= j < k <= s.len(),
    ensures
        byte_offset(s, j) < byte_offset(s, k),
    decreases k - j,
{
    lemma_byte_offset_step(s, k - 1);
    vstd::utf8::char_is_scalar(s[k - 1]);
    if j < k - 1 {
        lemma_byte_offset_grows(s, j, k - 1);
    }
}

/// Calls `std::str::from_utf8`: the bytes as a text, where they are valid
/// UTF-8, and nothing where they are not.
#[verifier::external_body]
pub(crate) fn text_of_bytes(bytes: &[u8]) -> (r: Option<&str>)
    ensures
        r is Some <==> vstd::utf8::valid_utf8(bytes@),
        r is Some ==> vstd::utf8::encode_utf8(r->0@) == bytes@,
{
    std::str::from_utf8(bytes).ok()
}

/// The character of a decimal digit.
pub open spec fn digit_char(d: int) -> char {
    if d == 0 {
        '0'
    } else if d == 1 {
        '1'
    } else if d == 2 {
        '2'
    } else if d == 3 {
        '3'
    } else if d == 4 {
        '4'
    } else if d == 5 {
        '5'
    } else if d == 6 {
        '6'
    } else if d == 7 {
        '7'
    } else if d == 8 {
        '8'
    } else {
        '9'
    }
}

/// The decimal digits of `n`.
pub open spec fn digits(n: nat) -> Seq<char>
    decreases n,
{
    if n < 10 {
        seq![digit_char(n as int)]
    } else {
        digits(n / 10).push(digit_char((n % 10) as int))
    }
}

/// The digits of `n` with zeros before them where they are fewer than
/// `width`.
pub open spec fn zero_padded(n: nat, width: int) -> Seq<char> {
    let d = digits(n);
    if d.len() >= width {
        d
    } else {
        Seq::new((width - d.len()) as nat, |i: int| '0') + d
    }
}

/// `n` in decimal, at least `width` characters wide: zeros fill what is
/// missing, behind the sign of a negative number.
pub open spec fn decimal(n: int, width: int) -> Seq<char> {
    if n < 0 {
        seq!['-'] + zero_padded((-n) as nat, width - 1)
    } else {
        zero_padded(n as nat, width)
    }
}

/// The character of a digit.
fn digit(d: u8) -> (c: char)
    requires
        d < 10,
    ensures
        c == digit_char(d as int),
{
    if d == 0 {
        '0'
    } else if d == 1 {
        '1'
    } else if d == 2 {
        '2'
    } else if d == 3 {
        '3'
    } else if d == 4 {
        '4'
    } else if d == 5 {
        '5'
    } else if d == 6 {
        '6'
    } else if d == 7 {
        '7'
    } else if d == 8 {
        '8'
    } else {
        '9'
    }
}

/// The digits of `n`, the last of them first.
fn digits_from_last(n: u128) -> (r: Vec<char>)
    ensures
        r.len() == digits(n as nat).len(),
        forall|t: int| 0 <= t < r.len() ==> #[trigger] r@[t] == digits(n as nat)[r.len() - 1 - t],
{
    let mut r: Vec<char> = Vec::new();
    let ghost mut tail: Seq<char> = Seq::empty();
    let mut m: u128 = n;
    proof {
        assert(digits(m as nat) + tail =~= digits(n as nat));
    }
    while m >= 10
        invariant
            digits(m as nat) + tail == digits(n as nat),
            r.len() == tail.len(),
            forall|t: int| 0 <= t < r.len() ==> #[trigger] r@[t] == tail[tail.len() - 1 - t],
        decreases m,
    {
        let ghost old_tail = tail;
        let c = digit((m % 10) as u8);
        r.push(c);
        proof {
            tail = seq![c] + tail;
            assert(digits(m as nat) == digits((m / 10) as nat).push(c));
            assert(digits((m / 10) as nat) + tail =~= digits(m as nat) + old_tail);
            assert forall|t: int| 0 <= t < r.len() implies #[trigger] r@[t] == tail[tail.len() - 1
                - t] by {
                if t < r.len() - 1 {
                    assert(tail[tail.len() - 1 - t] == old_tail[old_tail.len() - 1 - t]);
                }
            }
        }
        m = m / 10;
    }
    let ghost old_tail = tail;
    let c = digit(m as u8);
    r.push(c);
    proof {
        tail = seq![c] + tail;
        assert(digits(m as nat) =~= seq![c]);
        assert(tail =~= digits(n as nat));
        assert forall|t: int| 0 <= t < r.len() implies #[trigger] r@[t] == tail[tail.len() - 1
            - t] by {
            if t < r.len() - 1 {
                assert(tail[tail.len() - 1 - t] == old_tail[old_tail.len() - 1 - t]);
            }
        }
    }
    r
}

/// Writes `n` in decimal, at least `width` characters wide: zeros fill
/// what is missing, behind the sign of a negative number.
pub fn decimal_text(n: i128, width: usize) -> (r: String)
    ensures
        r@ == decimal(n as int, width as int),
{
    let magnitude: u128 = if n < 0 {
        (-(n + 1)) as u128 + 1
    } else {
        n as u128
    };
    let last_first = digits_from_last(magnitude);
    let count = last_first.len();
    let ghost d = digits(magnitude as nat);
    let mut r = String::new();
    let room: usize = if n < 0 {
        push_char(&mut r, '-');
        if width > 0 {
            width - 1
        } else {
            0
        }
    } else {
        width
    };
    let ghost sign = r@;
    let zeros: usize = if count < room {
        room - count
    } else {
        0
    };
    let mut k: usize = 0;
    while k < zeros
        invariant
            k <= zeros,
            r@ == sign + Seq::new(k as nat, |i: int| '0'),
        decreases zeros - k,
    {
        push_char(&mut r, '0');
        k += 1;
        assert(r@ =~= sign + Seq::new(k as nat, |i: int| '0'));
    }
    let ghost head = r@;
    let mut t: usize = count;
    proof {
        assert(d.take(0) =~= Seq::<char>::empty());
        assert(head + d.take(0) =~= head);
    }
    while t > 0
        invariant
            t <= count,
            count == last_first.len(),
            count == d.len(),
            forall|i: int| 0 <= i < count ==> #[trigger] last_first@[i] == d[count - 1 - i],
            r@ == head + d.take(count - t),
        decreases t,
    {
        t -= 1;
        push_char(&mut r, last_first[t]);
        assert(r@ =~= head + d.take(count - t)) by {
            assert(d.take(count - t) =~= d.take(count - t - 1).push(d[count - t - 1]));
        }
    }
    proof {
        assert(d.take(count as int) =~= d);
        if n < 0 {
            assert(sign =~= seq!['-']);
            assert(r@ =~= seq!['-'] + zero_padded(magnitude as nat, width - 1));
        } else {
            assert(sign =~= Seq::<char>::empty());
            assert(r@ =~= zero_padded(magnitude as nat, width as int));
        }
    }
    r
}

} // verus!
