//! Building blocks for the text that the library reads and writes: strings
//! that are borrowed or owned, decimal numbers, splitting UTF-8 text at an
//! ASCII character, trimming and lower case.

use std::borrow::Cow;
use vstd::prelude::*;
use vstd::string::StringSliceAdditionalSpecFns;
use vstd::utf8::*;

verus! {

/// `String::push` appends the one character to the end of the string.
pub assume_specification[ String::push ](s: &mut String, c: char)
    ensures
        final(s)@ == old(s)@.push(c),
;

/// `From<&str>` for `Cow<str>` gives the `Borrowed` variant around the slice:
/// no copy is made.
pub assume_specification<'a>[ <Cow<'a, str> as From<&'a str>>::from ](s: &'a str) -> (r: Cow<'a, str>)
    ensures
        r@ == s@,
        r is Borrowed,
;

/// The text that a borrowed-or-owned string holds.
pub(crate) fn cow_str<'b>(text: &'b Cow<'_, str>) -> (s: &'b str)
    ensures
        s@ == text@,
{
    match text {
        Cow::Borrowed(s) => s,
        Cow::Owned(s) => s.as_str(),
    }
}

/// A copy of a borrowed-or-owned string: a borrow stays a borrow of the same
/// text, an owned string is duplicated.
pub(crate) fn cow_clone<'a>(text: &Cow<'a, str>) -> (r: Cow<'a, str>)
    ensures
        r@ == text@,
        r is Owned <==> text is Owned,
{
    match text {
        Cow::Borrowed(s) => Cow::Borrowed(*s),
        Cow::Owned(s) => Cow::Owned(s.clone()),
    }
}

/// The same text in a string that borrows from nothing.
pub(crate) fn cow_into_owned(text: Cow<'_, str>) -> (r: Cow<'static, str>)
    ensures
        r@ == text@,
        r is Owned,
{
    match text {
        Cow::Borrowed(s) => Cow::Owned(s.to_owned()),
        Cow::Owned(s) => Cow::Owned(s),
    }
}

/// The character for a decimal digit.
pub open spec fn digit_char(d: nat) -> char
    recommends
        d < 10,
{
    (48 + d) as char
}

/// A number written in decimal, without sign or padding.
pub open spec fn decimal(n: nat) -> Seq<char>
    decreases n,
{
    if n < 10 {
        seq![digit_char(n)]
    } else {
        decimal(n / 10).push(digit_char(n % 10))
    }
}

fn push_digit(out: &mut String, d: u8)
    requires
        d < 10,
    ensures
        final(out)@ == old(out)@.push(digit_char(d as nat)),
{
    out.push((48u8 + d) as char);
}

/// Appends `n` in decimal.
pub fn push_decimal(out: &mut String, n: u8)
    ensures
        final(out)@ == old(out)@ + decimal(n as nat),
{
    proof {
        reveal_with_fuel(decimal, 3);
    }
    if n >= 100 {
        push_digit(out, n / 100);
    }
    if n >= 10 {
        push_digit(out, (n / 10) % 10);
    }
    push_digit(out, n % 10);
    proof {
        assert(out@ =~= old(out)@ + decimal(n as nat));
    }
}

/// Position of the first `c` in `s`, or the length of `s` where it holds none.
pub open spec fn first_index(s: Seq<char>, c: char) -> nat
    decreases s.len(),
{
    if s.len() == 0 || s[0] == c {
        0
    } else {
        1 + first_index(s.drop_first(), c)
    }
}

/// What stands before the first `c` in `s`: all of `s` where it holds none.
pub open spec fn before_first(s: Seq<char>, c: char) -> Seq<char> {
    s.take(first_index(s, c) as int)
}

/// What stands after the first `c` in `s`, where it holds one.
pub open spec fn after_first(s: Seq<char>, c: char) -> Option<Seq<char>> {
    if first_index(s, c) < s.len() {
        Some(s.skip(first_index(s, c) as int + 1))
    } else {
        None
    }
}

/// `first_index` stays within the sequence, passes over no `c`, and stops at one.
pub proof fn lemma_first_index(s: Seq<char>, c: char)
    ensures
        first_index(s, c) <= s.len(),
        forall|j: int| 0 <= j < first_index(s, c) ==> s[j] != c,
        first_index(s, c) < s.len() ==> s[first_index(s, c) as int] == c,
    decreases s.len(),
{
    if s.len() == 0 || s[0] == c {
    } else {
        let rest = s.drop_first();
        lemma_first_index(rest, c);
        assert forall|j: int| 0 <= j < first_index(s, c) implies s[j] != c by {
            if j > 0 {
                assert(s[j] == rest[j - 1]);
            }
        }
        if first_index(rest, c) < rest.len() {
            assert(s[first_index(s, c) as int] == rest[first_index(rest, c) as int]);
        }
    }
}

/// A position that passes over no `c` and stops at one, or at the end, is the
/// first index.
pub proof fn lemma_first_index_is(s: Seq<char>, c: char, i: int)
    requires
        0 <= i <= s.len(),
        forall|j: int| 0 <= j < i ==> s[j] != c,
        i < s.len() ==> s[i] == c,
    ensures
        first_index(s, c) == i,
{
    lemma_first_index(s, c);
}

/// In text that holds no `c`, everything stands before the first `c` and
/// nothing after it.
pub proof fn lemma_first_absent(s: Seq<char>, c: char)
    requires
        !s.contains(c),
    ensures
        first_index(s, c) == s.len(),
        before_first(s, c) == s,
        after_first(s, c) is None,
{
    lemma_first_index(s, c);
    if first_index(s, c) < s.len() {
        assert(s.contains(s[first_index(s, c) as int]));
    }
    assert(s.take(s.len() as int) =~= s);
}

/// Where `head` holds no `c`, the first `c` of `head`, `c`, `tail` is the
/// one in the middle.
pub proof fn lemma_first_present(head: Seq<char>, c: char, tail: Seq<char>)
    requires
        !head.contains(c),
    ensures
        first_index(head + seq![c] + tail, c) == head.len(),
        before_first(head + seq![c] + tail, c) == head,
        after_first(head + seq![c] + tail, c) == Some(tail),
{
    let s = head + seq![c] + tail;
    assert forall|j: int| 0 <= j < head.len() implies s[j] != c by {
        assert(s[j] == head[j]);
        assert(head.contains(head[j]));
    }
    assert(s[head.len() as int] == c);
    lemma_first_index_is(s, c, head.len() as int);
    assert(s.take(head.len() as int) =~= head);
    assert(s.skip(head.len() as int + 1) =~= tail);
}

/// Only the empty sequence of characters has an empty encoding.
proof fn lemma_encode_len(chars: Seq<char>)
    ensures
        encode_utf8(chars).len() >= chars.len(),
    decreases chars.len(),
{
    if chars.len() > 0 {
        lemma_encode_len(chars.drop_first());
    }
}

/// Two sequences of characters with the same encoding are the same.
proof fn lemma_encode_injective(x: Seq<char>, y: Seq<char>)
    requires
        encode_utf8(x) == encode_utf8(y),
    ensures
        x == y,
{
    encode_utf8_decode_utf8(x);
    encode_utf8_decode_utf8(y);
}

/// The encoding of an ASCII character is the one byte of the same value; the
/// encoding of any other character holds no byte of that value.
proof fn lemma_encode_scalar_ascii(chars: Seq<char>, c: char)
    requires
        chars.len() > 0,
        (c as u32) < 0x80,
    ensures
        ({
            let width = encode_scalar(chars[0] as u32).len();
            let bytes = encode_utf8(chars);
            &&& 1 <= width <= bytes.len()
            &&& bytes.subrange(width as int, bytes.len() as int) == encode_utf8(
                chars.drop_first(),
            )
            &&& chars[0] == c ==> width == 1 && bytes[0] == c as u8
            &&& chars[0] != c ==> forall|j: int| 0 <= j < width ==> bytes[j] != c as u8
        }),
{
    let scalar = chars[0] as u32;
    let head = encode_scalar(scalar);
    let bytes = encode_utf8(chars);
    char_is_scalar(chars[0]);
    assert(bytes == head + encode_utf8(chars.drop_first()));
    assert(bytes.subrange(head.len() as int, bytes.len() as int) =~= encode_utf8(
        chars.drop_first(),
    ));
    encode_utf8_first_scalar(chars);
    let first = bytes[0];
    assert(first <= 0x7f ==> (first & 0x7f) as u32 == first as u32) by (bit_vector);
    if chars[0] == c {
        assert(scalar <= 0x7f ==> ((scalar & 0x7f) as u8) as u32 == scalar) by (bit_vector);
        assert(head =~= seq![c as u8]);
    } else {
        char_u32_cast(chars[0], scalar);
        char_u32_cast(c, c as u32);
        assert(scalar != c as u32);
        assert forall|j: int| 0 <= j < head.len() implies bytes[j] != c as u8 by {
            if is_leading_byte_width_1(first) {
                assert(decode_first_scalar(bytes) == first as u32);
            }
        }
    }
}

/// Where `k` is the first position of the byte of an ASCII character `c` in
/// the encoding of `chars` (or its length, if the byte does not occur), the
/// first `c` in `chars` stands where the encoding reaches `k`: the bytes
/// before `k` encode the characters before it, the bytes after `k` those
/// after it.
proof fn lemma_encode_first_index(chars: Seq<char>, c: char, k: int)
    requires
        (c as u32) < 0x80,
        0 <= k <= encode_utf8(chars).len(),
        forall|j: int| 0 <= j < k ==> encode_utf8(chars)[j] != c as u8,
        k < encode_utf8(chars).len() ==> encode_utf8(chars)[k] == c as u8,
    ensures
        ({
            let i = first_index(chars, c) as int;
            let bytes = encode_utf8(chars);
            &&& i <= chars.len()
            &&& encode_utf8(chars.take(i)) == bytes.subrange(0, k)
            &&& k < bytes.len() ==> i < chars.len() && encode_utf8(chars.skip(i + 1))
                == bytes.subrange(k + 1, bytes.len() as int)
            &&& k == bytes.len() ==> i == chars.len()
        }),
    decreases chars.len(),
{
    let bytes = encode_utf8(chars);
    let i = first_index(chars, c) as int;
    if chars.len() == 0 {
        assert(chars.take(0) =~= chars);
        assert(bytes.subrange(0, 0) =~= bytes);
    } else {
        lemma_encode_scalar_ascii(chars, c);
        let rest = chars.drop_first();
        let width = encode_scalar(chars[0] as u32).len() as int;
        if chars[0] == c {
            assert(k == 0);
            assert(chars.take(0) =~= Seq::<char>::empty());
            assert(bytes.subrange(0, 0) =~= Seq::<u8>::empty());
            assert(chars.skip(1) =~= rest);
        } else {
            assert(k >= width);
            let tail = encode_utf8(rest);
            assert forall|j: int| 0 <= j < k - width implies tail[j] != c as u8 by {
                assert(tail[j] == bytes[j + width]);
            }
            if k < bytes.len() {
                assert(tail[k - width] == bytes[k]);
            }
            lemma_encode_first_index(rest, c, k - width);
            let inner = first_index(rest, c) as int;
            assert(i == inner + 1);
            let taken = chars.take(i);
            assert(taken[0] == chars[0]);
            assert(taken.drop_first() =~= rest.take(inner));
            assert(encode_utf8(taken) == encode_scalar(chars[0] as u32) + encode_utf8(
                rest.take(inner),
            ));
            assert(encode_scalar(chars[0] as u32) =~= bytes.subrange(0, width));
            assert(tail.subrange(0, k - width) =~= bytes.subrange(width, k));
            assert(bytes.subrange(0, width) + bytes.subrange(width, k) =~= bytes.subrange(0, k));
            if k < bytes.len() {
                assert(chars.skip(i + 1) =~= rest.skip(inner + 1));
                assert(tail.subrange(k - width + 1, tail.len() as int) =~= bytes.subrange(
                    k + 1,
                    bytes.len() as int,
                ));
            }
        }
    }
}

/// The first position at or after `from` where `bytes` holds `b`, or the
/// length of `bytes` where it holds none there.
fn find_byte(bytes: &[u8], from: usize, b: u8) -> (pos: usize)
    requires
        from <= bytes@.len(),
    ensures
        from <= pos <= bytes@.len(),
        forall|j: int| from <= j < pos ==> bytes@[j] != b,
        pos < bytes@.len() ==> bytes@[pos as int] == b,
{
    let mut pos = from;
    while pos < bytes.len() && bytes[pos] != b
        invariant
            from <= pos <= bytes@.len(),
            forall|j: int| from <= j < pos ==> bytes@[j] != b,
        decreases bytes@.len() - pos,
    {
        pos += 1;
    }
    pos
}

/// The part of `s` between two byte positions, neither of which cuts a
/// character in two.
fn slice<'a>(s: &'a str, from: usize, to: usize) -> (part: &'a str)
    requires
        from <= to <= s.spec_bytes().len(),
        is_char_boundary(s.spec_bytes(), from as int),
        is_char_boundary(s.spec_bytes(), to as int),
    ensures
        part.spec_bytes() == s.spec_bytes().subrange(from as int, to as int),
{
    let ghost bytes = s.spec_bytes();
    proof {
        encode_utf8_valid_utf8(s@);
        valid_utf8_split(bytes, to as int);
    }
    let (head, _) = s.split_at(to);
    proof {
        let prefix = bytes.subrange(0, to as int);
        assert(head.spec_bytes() == prefix);
        if from == to {
            is_char_boundary_start_end_of_seq(prefix);
        } else {
            is_char_boundary_iff_not_is_continuation_byte(bytes, from as int);
            is_char_boundary_iff_not_is_continuation_byte(prefix, from as int);
        }
    }
    let (_, part) = head.split_at(from);
    proof {
        assert(bytes.subrange(0, to as int).subrange(from as int, to as int) =~= bytes.subrange(
            from as int,
            to as int,
        ));
    }
    part
}

/// Splits `s` at the first occurrence of the ASCII character `c`: what stands
/// before it and, where there is one, what stands after it.
pub fn split_once<'a>(s: &'a str, c: char) -> (parts: (&'a str, Option<&'a str>))
    requires
        (c as u32) < 0x80,
    ensures
        parts.0@ == before_first(s@, c),
        parts.1 is Some <==> after_first(s@, c) is Some,
        parts.1 is Some ==> parts.1->0@ == after_first(s@, c)->0,
{
    let bytes = s.as_bytes();
    let n = bytes.len();
    let pos = find_byte(bytes, 0, c as u8);
    proof {
        encode_utf8_valid_utf8(s@);
        is_char_boundary_start_end_of_seq(bytes@);
        lemma_encode_first_index(s@, c, pos as int);
        if pos < n {
            is_char_boundary_iff_is_leading_byte(bytes@, pos as int);
            lemma_boundary_after_ascii(bytes@, pos as int);
        }
    }
    let head = slice(s, 0, pos);
    proof {
        lemma_encode_injective(head@, before_first(s@, c));
    }
    if pos < n {
        let tail = slice(s, pos + 1, n);
        proof {
            lemma_encode_injective(tail@, after_first(s@, c)->0);
        }
        (head, Some(tail))
    } else {
        (head, None)
    }
}

/// The position after an ASCII byte does not cut a character in two.
proof fn lemma_boundary_after_ascii(bytes: Seq<u8>, k: int)
    requires
        valid_utf8(bytes),
        0 <= k < bytes.len(),
        bytes[k] <= 0x7f,
    ensures
        is_char_boundary(bytes, k + 1),
{
    is_char_boundary_iff_is_leading_byte(bytes, k);
    valid_utf8_split(bytes, k);
    let suffix = bytes.subrange(k, bytes.len() as int);
    assert(suffix[0] == bytes[k]);
    assert(is_char_boundary(suffix, 1)) by {
        reveal_with_fuel(is_char_boundary, 2);
    }
    if k + 1 < bytes.len() {
        is_char_boundary_iff_not_is_continuation_byte(suffix, 1);
        assert(suffix[1] == bytes[k + 1]);
        is_char_boundary_iff_not_is_continuation_byte(bytes, k + 1);
    } else {
        is_char_boundary_start_end_of_seq(bytes);
    }
}

/// True when `s` starts with the ASCII character `c`.
pub fn starts_with(s: &str, c: char) -> (found: bool)
    requires
        (c as u32) < 0x80,
    ensures
        found == (s@.len() > 0 && s@[0] == c),
{
    let bytes = s.as_bytes();
    proof {
        lemma_encode_len(s@);
        if s@.len() > 0 {
            lemma_encode_scalar_ascii(s@, c);
        }
    }
    bytes.len() > 0 && bytes[0] == c as u8
}

/// What follows the ASCII character `c` at the start of `s`, where `s`
/// starts with it.
pub fn strip_prefix<'a>(s: &'a str, c: char) -> (rest: Option<&'a str>)
    requires
        (c as u32) < 0x80,
    ensures
        rest is Some <==> s@.len() > 0 && s@[0] == c,
        rest is Some ==> rest->0@ == s@.skip(1),
{
    if starts_with(s, c) {
        let n = s.as_bytes().len();
        let ghost bytes = s.spec_bytes();
        proof {
            lemma_encode_scalar_ascii(s@, c);
            encode_utf8_valid_utf8(s@);
            is_char_boundary_start_end_of_seq(bytes);
            lemma_boundary_after_ascii(bytes, 0);
            assert(s@.skip(1) =~= s@.drop_first());
        }
        let rest = slice(s, 1, n);
        proof {
            lemma_encode_injective(rest@, s@.skip(1));
        }
        Some(rest)
    } else {
        None
    }
}

/// True when the two strings hold the same text.
pub fn str_eq(a: &str, b: &str) -> (same: bool)
    ensures
        same == (a@ == b@),
{
    let x = a.as_bytes();
    let y = b.as_bytes();
    if x.len() != y.len() {
        return false;
    }
    let mut i: usize = 0;
    while i < x.len()
        invariant
            i <= x@.len(),
            x@.len() == y@.len(),
            x@ == a.spec_bytes(),
            y@ == b.spec_bytes(),
            forall|j: int| 0 <= j < i ==> x@[j] == y@[j],
        decreases x@.len() - i,
    {
        if x[i] != y[i] {
            return false;
        }
        i += 1;
    }
    proof {
        assert(x@ =~= y@);
        lemma_encode_injective(a@, b@);
    }
    true
}

/// The lower-case form of text under the rules of Unicode, as
/// `str::to_lowercase` computes it.
pub uninterp spec fn unicode_lowered(s: Seq<char>) -> Seq<char>;

/// `str::to_lowercase`: a new string with the lower-case form of `s`. The
/// contract only gives the result its name.
#[verifier::external_body]
fn unicode_lower(s: &str) -> (lower: String)
    ensures
        lower@ == unicode_lowered(s@),
{
    s.to_lowercase()
}

/// An ASCII capital letter as its small letter; any other character as it is.
pub open spec fn ascii_lower(c: char) -> char {
    if 'A' <= c <= 'Z' {
        ((c as u32) + 32) as char
    } else {
        c
    }
}

/// Text in lower case. In ASCII text the letters `A` to `Z` become `a` to
/// `z`; text with other characters is lowered under the rules of Unicode.
pub open spec fn lowered(s: Seq<char>) -> Seq<char> {
    if is_ascii_chars(s) {
        s.map_values(|c: char| ascii_lower(c))
    } else {
        unicode_lowered(s)
    }
}

/// The text of `s` in lower case. ASCII text is lowered here, letter by
/// letter; text with other characters is handed to `str::to_lowercase`.
pub fn lower(s: &str) -> (out: String)
    ensures
        out@ == lowered(s@),
{
    if !s.is_ascii() {
        return unicode_lower(s);
    }
    let bytes = s.as_bytes();
    let mut out = String::new();
    let mut i: usize = 0;
    proof {
        is_ascii_chars_encode_utf8(s@);
    }
    while i < bytes.len()
        invariant
            i <= bytes@.len(),
            bytes@ == s.spec_bytes(),
            is_ascii_chars(s@),
            bytes@.len() == s@.len(),
            forall|j: int| 0 <= j < s@.len() ==> s@[j] as u8 == bytes@[j],
            out@ == s@.take(i as int).map_values(|c: char| ascii_lower(c)),
        decreases bytes@.len() - i,
    {
        let b = bytes[i];
        let ghost c = s@[i as int];
        assert(c as u8 == b && c <= '\u{7f}');
        let low: u8 = if 65 <= b && b <= 90 {
            b + 32
        } else {
            b
        };
        out.push(low as char);
        proof {
            assert(low as char == ascii_lower(c));
            assert(s@.take(i + 1).map_values(|c: char| ascii_lower(c)) =~= s@.take(
                i as int,
            ).map_values(|c: char| ascii_lower(c)).push(ascii_lower(c)));
        }
        i += 1;
    }
    proof {
        assert(s@.take(i as int) =~= s@);
    }
    out
}

/// Text without the white space at its ends, as `str::trim` computes it.
pub uninterp spec fn unicode_trimmed(s: Seq<char>) -> Seq<char>;

/// `str::trim`: the part of `s` that is left when leading and trailing
/// white space is removed. The contract only gives the result its name.
#[verifier::external_body]
fn unicode_trim<'a>(s: &'a str) -> (part: &'a str)
    ensures
        part@ == unicode_trimmed(s@),
{
    s.trim()
}

/// The white space of ASCII: space, tab, line feed, vertical tab, form feed
/// and carriage return.
pub open spec fn is_ascii_space(c: char) -> bool {
    c == ' ' || '\t' <= c <= '\r'
}

/// How many characters of white space `s` starts with.
pub open spec fn leading_spaces(s: Seq<char>) -> int
    decreases s.len(),
{
    if s.len() > 0 && is_ascii_space(s[0]) {
        1 + leading_spaces(s.drop_first())
    } else {
        0
    }
}

/// How many characters of white space `s` ends with.
pub open spec fn trailing_spaces(s: Seq<char>) -> int
    decreases s.len(),
{
    if s.len() > 0 && is_ascii_space(s.last()) {
        1 + trailing_spaces(s.drop_last())
    } else {
        0
    }
}

/// Text without the white space at its ends. In ASCII text white space is
/// what `is_ascii_space` says; text with other characters is trimmed under
/// the rules of Unicode.
pub open spec fn trimmed(s: Seq<char>) -> Seq<char> {
    if is_ascii_chars(s) {
        let rest = s.skip(leading_spaces(s));
        rest.take(rest.len() - trailing_spaces(rest))
    } else {
        unicode_trimmed(s)
    }
}

/// A run of white space at the start that ends before `n` is the whole
/// leading white space.
proof fn lemma_leading_spaces(s: Seq<char>, n: int)
    requires
        0 <= n <= s.len(),
        forall|j: int| 0 <= j < n ==> is_ascii_space(s[j]),
        n < s.len() ==> !is_ascii_space(s[n]),
    ensures
        leading_spaces(s) == n,
    decreases n,
{
    if n > 0 {
        let rest = s.drop_first();
        assert forall|j: int| 0 <= j < n - 1 implies is_ascii_space(rest[j]) by {
            assert(rest[j] == s[j + 1]);
        }
        lemma_leading_spaces(rest, n - 1);
    }
}

/// A run of white space at the end that starts after `s.len() - n` is the
/// whole trailing white space.
proof fn lemma_trailing_spaces(s: Seq<char>, n: int)
    requires
        0 <= n <= s.len(),
        forall|j: int| s.len() - n <= j < s.len() ==> is_ascii_space(s[j]),
        n < s.len() ==> !is_ascii_space(s[s.len() - n - 1]),
    ensures
        trailing_spaces(s) == n,
    decreases n,
{
    if n > 0 {
        let rest = s.drop_last();
        assert forall|j: int| rest.len() - (n - 1) <= j < rest.len() implies is_ascii_space(
            rest[j],
        ) by {
            assert(rest[j] == s[j]);
        }
        lemma_trailing_spaces(rest, n - 1);
    }
}

fn is_space_byte(b: u8) -> (space: bool)
    ensures
        space == (b == 32 || 9 <= b <= 13),
{
    b == 32 || (9 <= b && b <= 13)
}

/// The part of `s` that is left when the white space at both ends is
/// removed. ASCII text is trimmed here; text with other characters is handed
/// to `str::trim`.
pub fn trim<'a>(s: &'a str) -> (part: &'a str)
    ensures
        part@ == trimmed(s@),
{
    if !s.is_ascii() {
        return unicode_trim(s);
    }
    let bytes = s.as_bytes();
    let n = bytes.len();
    proof {
        is_ascii_chars_encode_utf8(s@);
    }
    let mut start: usize = 0;
    while start < n && is_space_byte(bytes[start])
        invariant
            start <= n == bytes@.len() == s@.len(),
            is_ascii_chars(s@),
            forall|j: int| 0 <= j < s@.len() ==> s@[j] as u8 == bytes@[j],
            forall|j: int| 0 <= j < start ==> is_ascii_space(s@[j]),
        decreases n - start,
    {
        start += 1;
    }
    let mut end: usize = n;
    while end > start && is_space_byte(bytes[end - 1])
        invariant
            start <= end <= n == bytes@.len() == s@.len(),
            is_ascii_chars(s@),
            forall|j: int| 0 <= j < s@.len() ==> s@[j] as u8 == bytes@[j],
            forall|j: int| end <= j < n ==> is_ascii_space(s@[j]),
        decreases end,
    {
        end -= 1;
    }
    proof {
        lemma_leading_spaces(s@, start as int);
        let rest = s@.skip(start as int);
        assert forall|j: int| rest.len() - (n - end) <= j < rest.len() implies is_ascii_space(
            rest[j],
        ) by {
            assert(rest[j] == s@[j + start]);
        }
        if n - end < rest.len() {
            assert(rest[rest.len() - (n - end) - 1] == s@[end - 1]);
        }
        lemma_trailing_spaces(rest, n - end);
        assert(rest.take(rest.len() - (n - end)) =~= s@.subrange(start as int, end as int));
    }
    s.substring_ascii(start, end)
}

} // verus!
