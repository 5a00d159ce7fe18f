//! Cutting `&str` values at ASCII delimiters.
//!
//! The functions here walk the UTF-8 bytes of a string once and cut it with
//! `str::split_at`; their contracts speak of characters only. The lemmas in
//! between carry facts about bytes over to characters.

use vstd::prelude::*;
use vstd::string::*;
use vstd::utf8::*;

verus! {

/// The line feed, as a byte.
pub const LINE_FEED: u8 = 0x0a;

/// The NUL character, as a byte.
pub const NUL: u8 = 0x00;

/// The `=` between a key and its value, as a byte.
pub const SEPARATOR: u8 = 0x3d;

/// The characters that end a run: line feed and NUL always, and `=` too where
/// `at_separator` is set.
pub open spec fn is_stop(c: char, at_separator: bool) -> bool {
    c == '\n' || c == '\0' || (at_separator && c == '=')
}

/// `is_stop`, on a byte of the UTF-8 encoding.
pub open spec fn is_stop_byte(b: u8, at_separator: bool) -> bool {
    b == LINE_FEED || b == NUL || (at_separator && b == SEPARATOR)
}

/// No character of `s` ends a run.
pub open spec fn stop_free(s: Seq<char>, at_separator: bool) -> bool {
    forall|i: int| 0 <= i < s.len() ==> !is_stop(#[trigger] s[i], at_separator)
}

/// `head` is the longest prefix of `s` without a stop character, and `tail`
/// is what follows it.
pub open spec fn cut_before_stop(
    s: Seq<char>,
    at_separator: bool,
    head: Seq<char>,
    tail: Seq<char>,
) -> bool {
    &&& s == head + tail
    &&& stop_free(head, at_separator)
    &&& tail.len() > 0 ==> is_stop(tail[0], at_separator)
}

proof fn lemma_low_seven_bits(b: u8)
    by (bit_vector)
    requires
        b <= 0x7f,
    ensures
        b & 0x7f == b,
{
}

proof fn lemma_low_seven_bits_of_scalar(v: u32)
    by (bit_vector)
    requires
        v <= 0x7f,
    ensures
        (v & 0x7f) as u8 as u32 == v,
{
}

/// Encoding distributes over concatenation.
proof fn lemma_encode_concat(a: Seq<char>, b: Seq<char>)
    ensures
        encode_utf8(a + b) == encode_utf8(a) + encode_utf8(b),
    decreases a.len(),
{
    if a.len() == 0 {
        assert(a + b =~= b);
        assert(encode_utf8(a) + encode_utf8(b) =~= encode_utf8(b));
    } else {
        assert((a + b).drop_first() =~= a.drop_first() + b);
        lemma_encode_concat(a.drop_first(), b);
        assert(encode_utf8(a + b) =~= encode_utf8(a) + encode_utf8(b));
    }
}

/// Two character sequences with the same encoding are the same sequence.
proof fn lemma_encode_injective(a: Seq<char>, b: Seq<char>)
    requires
        encode_utf8(a) == encode_utf8(b),
    ensures
        a == b,
{
    encode_utf8_decode_utf8(a);
    encode_utf8_decode_utf8(b);
}

/// Where the encoding starts with an ASCII byte, that byte is the first
/// character.
proof fn lemma_first_ascii_byte(s: Seq<char>)
    requires
        encode_utf8(s).len() > 0,
        encode_utf8(s)[0] <= 0x7f,
    ensures
        s.len() > 0,
        s[0] as u32 == encode_utf8(s)[0] as u32,
{
    let bytes = encode_utf8(s);
    encode_utf8_first_scalar(s);
    lemma_low_seven_bits(bytes[0]);
}

/// An ASCII character is found again, as one byte, in the encoding.
proof fn lemma_ascii_char_in_encoding(s: Seq<char>, k: int) -> (j: int)
    requires
        0 <= k < s.len(),
        s[k] as u32 <= 0x7f,
    ensures
        j == encode_utf8(s.subrange(0, k)).len(),
        0 <= j < encode_utf8(s).len(),
        encode_utf8(s)[j] as u32 == s[k] as u32,
{
    let before = s.subrange(0, k);
    let after = s.subrange(k, s.len() as int);
    assert(s =~= before + after);
    lemma_encode_concat(before, after);
    lemma_low_seven_bits_of_scalar(s[k] as u32);
    assert(after[0] == s[k]);
    assert(encode_utf8(after)[0] as u32 == s[k] as u32);
    encode_utf8(before).len() as int
}

/// A string whose encoding holds no stop byte holds no stop character.
proof fn lemma_stop_free_bytes(s: Seq<char>, at_separator: bool)
    requires
        forall|j: int|
            0 <= j < encode_utf8(s).len() ==> !is_stop_byte(
                #[trigger] encode_utf8(s)[j],
                at_separator,
            ),
    ensures
        stop_free(s, at_separator),
{
    assert forall|k: int| 0 <= k < s.len() implies !is_stop(#[trigger] s[k], at_separator) by {
        if is_stop(s[k], at_separator) {
            let j = lemma_ascii_char_in_encoding(s, k);
            assert(is_stop_byte(encode_utf8(s)[j], at_separator));
        }
    }
}

/// A string is cut before its first stop character in one way only.
pub proof fn lemma_cut_unique(
    s: Seq<char>,
    at_separator: bool,
    head: Seq<char>,
    tail: Seq<char>,
    other_head: Seq<char>,
    other_tail: Seq<char>,
)
    requires
        cut_before_stop(s, at_separator, head, tail),
        cut_before_stop(s, at_separator, other_head, other_tail),
    ensures
        head == other_head,
        tail == other_tail,
{
    if head.len() < other_head.len() {
        assert(s[head.len() as int] == tail[0]);
        assert(s[head.len() as int] == other_head[head.len() as int]);
    } else if other_head.len() < head.len() {
        assert(s[other_head.len() as int] == other_tail[0]);
        assert(s[other_head.len() as int] == head[other_head.len() as int]);
    }
    assert(head =~= s.subrange(0, head.len() as int));
    assert(other_head =~= s.subrange(0, head.len() as int));
    assert(tail =~= s.subrange(head.len() as int, s.len() as int));
    assert(other_tail =~= s.subrange(head.len() as int, s.len() as int));
}

/// Cuts `s` before its first stop character: `(head, tail)` with `head` free
/// of stop characters and `tail` empty or starting with one.
pub fn split_before_stop(s: &str, at_separator: bool) -> (r: (&str, &str))
    ensures
        cut_before_stop(s@, at_separator, r.0@, r.1@),
{
    let bytes = s.as_bytes();
    let mut i: usize = 0;
    while i < bytes.len() && !(bytes[i] == LINE_FEED || bytes[i] == NUL || (at_separator
        && bytes[i] == SEPARATOR))
        invariant
            i <= bytes@.len(),
            forall|j: int| 0 <= j < i ==> !is_stop_byte(#[trigger] bytes@[j], at_separator),
        decreases bytes@.len() - i,
    {
        i += 1;
    }
    proof {
        encode_utf8_valid_utf8(s@);
        if i < bytes@.len() {
            is_char_boundary_iff_is_leading_byte(bytes@, i as int);
        } else {
            is_char_boundary_start_end_of_seq(bytes@);
        }
    }
    let (head, tail) = s.split_at(i);
    proof {
        let hb = encode_utf8(head@);
        let tb = encode_utf8(tail@);
        assert(bytes@ =~= hb + tb);
        lemma_encode_concat(head@, tail@);
        lemma_encode_injective(s@, head@ + tail@);
        assert forall|j: int| 0 <= j < hb.len() implies !is_stop_byte(
            #[trigger] hb[j],
            at_separator,
        ) by {
            assert(hb[j] == bytes@[j]);
        }
        lemma_stop_free_bytes(head@, at_separator);
        if tail@.len() > 0 {
            if tb.len() == 0 {
                encode_utf8_decode_utf8(tail@);
            }
            assert(tb[0] == bytes@[i as int]);
            lemma_first_ascii_byte(tail@);
            char_u32_cast(tail@[0], tb[0] as u32);
        }
    }
    (head, tail)
}

/// What follows the first character of `s`, where that character is the
/// ASCII character with the code `c`. A code above `0x7f` is the code of no
/// ASCII character, and nothing is stripped for it.
pub fn strip_char(s: &str, c: u8) -> (r: Option<&str>)
    ensures
        match r {
            Some(rest) => c <= 0x7f && s@ == seq![c as char] + rest@,
            None => c > 0x7f || s@.len() == 0 || s@[0] != c as char,
        },
{
    let bytes = s.as_bytes();
    if c > 0x7f || bytes.len() == 0 {
        proof {
            if s@.len() > 0 {
                encode_utf8_first_scalar(s@);
            }
        }
        return None;
    }
    if bytes[0] != c {
        proof {
            if s@[0] == c as char {
                let at = lemma_ascii_char_in_encoding(s@, 0);
                assert(s@.subrange(0, 0) =~= Seq::<char>::empty());
            }
        }
        return None;
    }
    proof {
        encode_utf8_valid_utf8(s@);
        if 1 < bytes@.len() {
            reveal_with_fuel(is_char_boundary, 2);
        } else {
            is_char_boundary_start_end_of_seq(bytes@);
        }
    }
    let (first, rest) = s.split_at(1);
    proof {
        assert(bytes@ =~= encode_utf8(first@) + encode_utf8(rest@));
        lemma_encode_concat(first@, rest@);
        lemma_encode_injective(s@, first@ + rest@);
        let one = seq![c as char];
        lemma_low_seven_bits_of_scalar(c as u32);
        assert(encode_utf8(one.drop_first()) =~= Seq::<u8>::empty());
        assert(encode_utf8(one) =~= seq![c]);
        assert(encode_utf8(first@) =~= seq![c]);
        lemma_encode_injective(first@, one);
    }
    Some(rest)
}

/// Whether two strings hold the same characters.
pub fn same_text(a: &str, b: &str) -> (r: bool)
    ensures
        r == (a@ == b@),
{
    let x = a.as_bytes();
    let y = b.as_bytes();
    if x.len() != y.len() {
        return false;
    }
    let mut i: usize = 0;
    while i < x.len()
        invariant
            i <= x@.len(),
            x@.len() == y@.len(),
            x@ == encode_utf8(a@),
            y@ == encode_utf8(b@),
            forall|j: int| 0 <= j < i ==> x@[j] == y@[j],
        decreases x@.len() - i,
    {
        if x[i] != y[i] {
            return false;
        }
        i += 1;
    }
    proof {
        assert(x@ =~= y@);
        lemma_encode_injective(a@, b@);
    }
    true
}

} // verus!
