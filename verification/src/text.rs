//! Small helpers on characters and strings.

use vstd::prelude::*;

verus! {

/// `String::push` appends the given character to the end of the string.
pub assume_specification[ String::push ](s: &mut String, c: char)
    ensures
        final(s)@ == old(s)@.push(c),
;

/// The decimal digits of `n`, most significant first, with no leading zero
/// (zero itself is the one digit `0`).
pub open spec fn decimal_digits(n: nat) -> Seq<char>
    decreases n,
{
    if n < 10 {
        seq![digit_char(n)]
    } else {
        decimal_digits(n / 10).push(digit_char(n % 10))
    }
}

/// The character for a digit below ten.
pub open spec fn digit_char(d: nat) -> char {
    (48 + d) as char
}

/// The digit's character.
fn digit(d: u8) -> (c: char)
    requires
        d < 10,
    ensures
        c == digit_char(d as nat),
{
    (48 + d) as char
}

/// `n` written in decimal.
pub fn decimal(n: u64) -> (s: String)
    ensures
        s@ == decimal_digits(n as nat),
    decreases n,
{
    let mut s: String = if n < 10 {
        String::new()
    } else {
        decimal(n / 10)
    };
    s.push(digit((n % 10) as u8));
    s
}

/// The characters of `s`.
pub fn chars_of(s: &str) -> (v: Vec<char>)
    ensures
        v@ == s@,
{
    let mut v: Vec<char> = Vec::new();
    for c in iter: s.chars()
        invariant
            v@ == s@.take(iter.index()),
            iter.seq() == s@,
    {
        proof {
            assert(s@.take(iter.index() + 1) == s@.take(iter.index()).push(c));
        }
        v.push(c);
    }
    assert(s@.take(s@.len() as int) == s@);
    v
}

/// The string made of the characters `v[from..]`.
pub fn string_from(v: &Vec<char>, from: usize) -> (s: String)
    requires
        from <= v@.len(),
    ensures
        s@ == v@.skip(from as int),
{
    let mut s: String = String::new();
    let mut i: usize = from;
    while i < v.len()
        invariant
            from <= i <= v@.len(),
            s@ == v@.subrange(from as int, i as int),
        decreases v@.len() - i,
    {
        s.push(v[i]);
        assert(v@.subrange(from as int, i + 1) == v@.subrange(from as int, i as int).push(v@[i as int]));
        i += 1;
    }
    assert(v@.subrange(from as int, v@.len() as int) == v@.skip(from as int));
    s
}

/// Whether `c` occurs in `v`.
pub fn contains_char(v: &Vec<char>, c: char) -> (found: bool)
    ensures
        found == v@.contains(c),
{
    let mut i: usize = 0;
    while i < v.len()
        invariant
            i <= v@.len(),
            forall|k: int| 0 <= k < i ==> v@[k] != c,
        decreases v@.len() - i,
    {
        if v[i] == c {
            return true;
        }
        i += 1;
    }
    false
}

/// The bytes of a character's encoding: the one byte itself for an ASCII
/// character, only bytes above the ASCII range for any other.
proof fn lemma_encode_scalar(c: char, i: int)
    requires
        0 <= i < vstd::utf8::encode_scalar(c as u32).len(),
    ensures
        (c as u32) < 128 ==> vstd::utf8::encode_scalar(c as u32) == seq![c as u8],
        (c as u32) >= 128 ==> vstd::utf8::encode_scalar(c as u32)[i] >= 128,
{
    let u = c as u32;
    assert(u < 128 ==> (u & 0x7f) as u8 == u as u8) by (bit_vector);
    assert((0xC0u8 | ((u >> 6) & 0x1F) as u8) >= 128) by (bit_vector);
    assert((0xE0u8 | ((u >> 12) & 0x0F) as u8) >= 128) by (bit_vector);
    assert((0xF0u8 | ((u >> 18) & 0x7) as u8) >= 128) by (bit_vector);
    assert((0x80u8 | (u & 0x3F) as u8) >= 128) by (bit_vector);
    assert((0x80u8 | ((u >> 6) & 0x3F) as u8) >= 128) by (bit_vector);
    assert((0x80u8 | ((u >> 12) & 0x3F) as u8) >= 128) by (bit_vector);
    if u < 128 {
        assert(vstd::utf8::encode_scalar(u) =~= seq![c as u8]);
    }
}

proof fn lemma_same_ascii(a: char, c: char)
    requires
        (c as u32) < 128,
    ensures
        (c as u8) < 128,
        (a as u32) < 128 && a as u8 == c as u8 ==> a == c,
        vstd::utf8::encode_scalar(a as u32).len() > 0,
{
}

/// An ASCII character occurs in a text exactly when its byte occurs in the text's
/// UTF-8 encoding.
pub proof fn lemma_ascii_in_utf8(chars: Seq<char>, c: char)
    requires
        (c as u32) < 128,
    ensures
        vstd::utf8::encode_utf8(chars).contains(c as u8) <==> chars.contains(c),
    decreases chars.len(),
{
    let bytes = vstd::utf8::encode_utf8(chars);
    if chars.len() > 0 {
        let head = vstd::utf8::encode_scalar(chars[0] as u32);
        let tail = chars.drop_first();
        let rest = vstd::utf8::encode_utf8(tail);
        lemma_ascii_in_utf8(tail, c);
        assert(bytes == head + rest);
        assert forall|i: int| 0 <= i < head.len() && head[i] == c as u8 implies chars[0] == c by {
            lemma_encode_scalar(chars[0], i);
            lemma_same_ascii(chars[0], c);
        }
        lemma_encode_scalar(chars[0], 0);
        if chars.contains(c) {
            let k = choose|k: int| 0 <= k < chars.len() && chars[k] == c;
            if k == 0 {
                assert(bytes[0] == c as u8);
            } else {
                assert(tail[k - 1] == c);
                let j = choose|j: int| 0 <= j < rest.len() && rest[j] == c as u8;
                assert(bytes[head.len() + j] == c as u8);
            }
        }
        if bytes.contains(c as u8) {
            let k = choose|k: int| 0 <= k < bytes.len() && bytes[k] == c as u8;
            if k < head.len() {
                assert(head[k] == c as u8);
                assert(chars[0] == c);
            } else {
                assert(rest[k - head.len()] == c as u8);
                let j = choose|j: int| 0 <= j < tail.len() && tail[j] == c;
                assert(chars[j + 1] == c);
            }
        }
    }
}

/// A number is written with its decimal digits: cutting the last one off leaves what
/// a tenth of the number is written as, and the last one is what remains of it.  No
/// number but zero starts with the digit zero.
pub proof fn law_numbers_are_written_in_decimal(n: nat)
    ensures
        decimal_digits(n).len() > 0,
        decimal_digits(n).last() as int == 48 + n % 10,
        n < 10 ==> decimal_digits(n).len() == 1,
        n >= 10 ==> decimal_digits(n).drop_last() == decimal_digits(n / 10),
        n > 0 ==> decimal_digits(n)[0] != '0',
    decreases n,
{
    let last = n % 10;
    assert((48 + last) as char as int == 48 + last);
    if n >= 10 {
        law_numbers_are_written_in_decimal(n / 10);
        assert(decimal_digits(n).drop_last() == decimal_digits(n / 10));
        assert(decimal_digits(n)[0] == decimal_digits(n / 10)[0]);
    }
}

} // verus!
