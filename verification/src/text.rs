//! Byte offsets and character indices of UTF-8 text.
//!
//! A `&str` is viewed as its sequence of characters, while positions into it are byte offsets
//! that must fall on character boundaries. This module connects the two: it says at which
//! byte offset each character starts, proves that these offsets are exactly the character
//! boundaries, and offers the slicing primitives that the rest of the crate builds on.
use vstd::prelude::*;
use vstd::string::*;
use vstd::utf8::*;

verus! {

/// Number of bytes that the first `n` characters of `text` occupy in UTF-8, which is the byte
/// offset at which character `n` starts.
pub open spec fn byte_offset(text: Seq<char>, n: int) -> int
    recommends
        0 <= n <= text.len(),
{
    encode_utf8(text.take(n)).len() as int
}

/// Number of characters that the first `k` bytes of the UTF-8 form of `text` encode.
pub open spec fn char_index(text: Seq<char>, k: int) -> int
    recommends
        is_char_boundary(encode_utf8(text), k),
{
    decode_utf8(encode_utf8(text).take(k)).len() as int
}

/// Number of bytes that `c` occupies in UTF-8.
pub open spec fn char_width(c: char) -> int {
    encode_scalar(c as u32).len() as int
}

/// Encoding distributes over concatenation.
pub proof fn lemma_encode_concat(a: Seq<char>, b: Seq<char>)
    ensures
        encode_utf8(a + b) == encode_utf8(a) + encode_utf8(b),
    decreases a.len(),
{
    if a.len() > 0 {
        lemma_encode_concat(a.drop_first(), b);
        assert((a + b).drop_first() =~= a.drop_first() + b);
    }
}

/// A text of one character encodes to that character's bytes.
pub proof fn lemma_encode_single(c: char)
    ensures
        encode_utf8(seq![c]) == encode_scalar(c as u32),
{
    assert(encode_utf8(seq![c].drop_first()) =~= Seq::<u8>::empty());
}

/// Encoding is injective.
pub proof fn lemma_encode_injective(a: Seq<char>, b: Seq<char>)
    requires
        encode_utf8(a) == encode_utf8(b),
    ensures
        a == b,
{
    encode_utf8_decode_utf8(a);
    encode_utf8_decode_utf8(b);
}

/// If the bytes of `b` start with the bytes of `a`, then `b` starts with `a`.
pub proof fn lemma_encode_prefix(a: Seq<char>, b: Seq<char>)
    requires
        encode_utf8(a).len() <= encode_utf8(b).len(),
        encode_utf8(b).take(encode_utf8(a).len() as int) == encode_utf8(a),
    ensures
        a.len() <= b.len(),
        b.take(a.len() as int) == a,
    decreases a.len(),
{
    if a.len() > 0 {
        let ea = encode_utf8(a);
        let eb = encode_utf8(b);
        let width = char_width(a[0]);
        encode_utf8_first_scalar(a);
        encode_utf8_first_scalar(b);
        assert forall|k: int| 0 <= k < ea.len() implies eb[k] == ea[k] by {
            assert(eb.take(ea.len() as int)[k] == eb[k]);
        }
        char_u32_cast(a[0], a[0] as u32);
        char_u32_cast(b[0], b[0] as u32);
        assert(encode_utf8(a.drop_first()) =~= ea.skip(width));
        assert(encode_utf8(b.drop_first()) =~= eb.skip(width));
        assert(eb.skip(width).take(ea.len() - width) =~= ea.skip(width));
        lemma_encode_prefix(a.drop_first(), b.drop_first());
        assert(b.take(a.len() as int) =~= a) by {
            assert forall|k: int| 0 <= k < a.len() implies b[k] == a[k] by {
                if k > 0 {
                    assert(b.drop_first().take(a.len() - 1)[k - 1] == a.drop_first()[k - 1]);
                }
            }
        }
    }
}

/// The bytes of `text` split at the offset of character `n` into the bytes of the first `n`
/// characters and the bytes of the others.
pub proof fn lemma_split(text: Seq<char>, n: int)
    requires
        0 <= n <= text.len(),
    ensures
        encode_utf8(text) == encode_utf8(text.take(n)) + encode_utf8(text.skip(n)),
        0 <= byte_offset(text, n) <= encode_utf8(text).len(),
        encode_utf8(text).take(byte_offset(text, n)) == encode_utf8(text.take(n)),
        encode_utf8(text).skip(byte_offset(text, n)) == encode_utf8(text.skip(n)),
{
    assert(text =~= text.take(n) + text.skip(n));
    lemma_encode_concat(text.take(n), text.skip(n));
    let bytes = encode_utf8(text);
    let k = byte_offset(text, n);
}

/// Offsets start at zero and end at the length of the encoding.
pub proof fn lemma_offset_ends(text: Seq<char>)
    ensures
        byte_offset(text, 0) == 0,
        byte_offset(text, text.len() as int) == encode_utf8(text).len(),
{
    assert(text.take(text.len() as int) =~= text);
}

/// The next character starts where this one starts plus this one's width.
pub proof fn lemma_offset_step(text: Seq<char>, n: int)
    requires
        0 <= n < text.len(),
    ensures
        byte_offset(text, n + 1) == byte_offset(text, n) + char_width(text[n]),
{
    assert(text.take(n + 1) =~= text.take(n) + seq![text[n]]);
    lemma_encode_concat(text.take(n), seq![text[n]]);
    lemma_encode_single(text[n]);
}

/// Offsets grow strictly with the character index.
pub proof fn lemma_offset_increases(text: Seq<char>, m: int, n: int)
    requires
        0 <= m < n <= text.len(),
    ensures
        byte_offset(text, m) < byte_offset(text, n),
    decreases n - m,
{
    lemma_offset_step(text, n - 1);
    if m < n - 1 {
        lemma_offset_increases(text, m, n - 1);
    }
}

/// The bytes between the offsets of two characters are the encoding of the characters between
/// them.
pub proof fn lemma_slice(text: Seq<char>, m: int, n: int)
    requires
        0 <= m <= n <= text.len(),
    ensures
        byte_offset(text, m) <= byte_offset(text, n) <= encode_utf8(text).len(),
        encode_utf8(text).subrange(byte_offset(text, m), byte_offset(text, n)) == encode_utf8(
            text.subrange(m, n),
        ),
{
    lemma_split(text, n);
    let head = text.take(n);
    assert(head.take(m) =~= text.take(m));
    assert(head.skip(m) =~= text.subrange(m, n));
    lemma_split(head, m);
    let bytes = encode_utf8(text);
    assert(bytes.subrange(byte_offset(text, m), byte_offset(text, n)) =~= bytes.take(
        byte_offset(text, n),
    ).skip(byte_offset(text, m)));
}

/// Of the bytes of one encoded character, the first is no continuation byte and the others are.
proof fn lemma_first_scalar_bytes(bytes: Seq<u8>, j: int)
    requires
        valid_first_scalar(bytes),
        0 <= j < length_of_first_scalar(bytes),
    ensures
        j < bytes.len(),
        is_continuation_byte(bytes[j]) <==> j != 0,
{
}

/// The byte at which a character starts is no continuation byte, and the other bytes of the
/// character are.
pub proof fn lemma_char_bytes(text: Seq<char>, n: int, k: int)
    requires
        0 <= n < text.len(),
        byte_offset(text, n) <= k < byte_offset(text, n + 1),
    ensures
        k < encode_utf8(text).len(),
        is_continuation_byte(encode_utf8(text)[k]) <==> k != byte_offset(text, n),
{
    let tail = text.skip(n);
    let rest = encode_utf8(tail);
    let start = byte_offset(text, n);
    lemma_split(text, n);
    lemma_offset_step(text, n);
    encode_utf8_first_scalar(tail);
    assert(tail[0] == text[n]);
    lemma_first_scalar_bytes(rest, k - start);
    assert(encode_utf8(text)[k] == encode_utf8(text).skip(start)[k - start]);
}

/// The offset of every character, and the end of the text, is a character boundary.
pub proof fn lemma_offset_is_boundary(text: Seq<char>, n: int)
    requires
        0 <= n <= text.len(),
    ensures
        is_char_boundary(encode_utf8(text), byte_offset(text, n)),
{
    let bytes = encode_utf8(text);
    encode_utf8_valid_utf8(text);
    if n == text.len() {
        lemma_offset_ends(text);
        is_char_boundary_start_end_of_seq(bytes);
    } else {
        lemma_offset_step(text, n);
        lemma_char_bytes(text, n, byte_offset(text, n));
        is_char_boundary_iff_not_is_continuation_byte(bytes, byte_offset(text, n));
    }
}

/// The character that holds byte `k`.
pub proof fn lemma_locate(text: Seq<char>, k: int) -> (n: int)
    requires
        0 <= k < encode_utf8(text).len(),
    ensures
        0 <= n < text.len(),
        byte_offset(text, n) <= k < byte_offset(text, n + 1),
{
    lemma_locate_from(text, k, 0)
}

proof fn lemma_locate_from(text: Seq<char>, k: int, from: int) -> (n: int)
    requires
        0 <= from <= text.len(),
        byte_offset(text, from) <= k < encode_utf8(text).len(),
    ensures
        from <= n < text.len(),
        byte_offset(text, n) <= k < byte_offset(text, n + 1),
    decreases text.len() - from,
{
    lemma_offset_ends(text);
    if k < byte_offset(text, from + 1) {
        from
    } else {
        lemma_locate_from(text, k, from + 1)
    }
}

/// Every character boundary is the offset of a character or the end of the text.
pub proof fn lemma_boundary_is_offset(text: Seq<char>, k: int) -> (n: int)
    requires
        is_char_boundary(encode_utf8(text), k),
        0 <= k <= encode_utf8(text).len(),
    ensures
        0 <= n <= text.len(),
        byte_offset(text, n) == k,
{
    let bytes = encode_utf8(text);
    encode_utf8_valid_utf8(text);
    lemma_offset_ends(text);
    if k == bytes.len() {
        text.len() as int
    } else {
        let n = lemma_locate(text, k);
        lemma_char_bytes(text, n, k);
        is_char_boundary_iff_not_is_continuation_byte(bytes, k);
        n
    }
}

/// `char_index` inverts `byte_offset`.
pub proof fn lemma_index_of_offset(text: Seq<char>, n: int)
    requires
        0 <= n <= text.len(),
    ensures
        char_index(text, byte_offset(text, n)) == n,
{
    lemma_split(text, n);
    encode_utf8_decode_utf8(text.take(n));
}

/// A boundary of the whole text that lies within a prefix ending at a boundary is a boundary of
/// that prefix.
pub proof fn lemma_boundary_in_prefix(bytes: Seq<u8>, from: int, to: int)
    requires
        valid_utf8(bytes),
        is_char_boundary(bytes, from),
        is_char_boundary(bytes, to),
        0 <= from <= to <= bytes.len(),
    ensures
        valid_utf8(bytes.take(to)),
        is_char_boundary(bytes.take(to), from),
{
    valid_utf8_split(bytes, to);
    let head = bytes.take(to);
    if from == to {
        is_char_boundary_start_end_of_seq(head);
    } else {
        is_char_boundary_iff_not_is_continuation_byte(bytes, from);
        is_char_boundary_iff_not_is_continuation_byte(head, from);
    }
}

/// The first boundary after the offset of a character is the offset of the next character.
pub proof fn lemma_next_boundary(text: Seq<char>, n: int, end: int)
    requires
        0 <= n < text.len(),
        byte_offset(text, n) < end <= encode_utf8(text).len(),
        is_char_boundary(encode_utf8(text), end),
        forall|k: int|
            byte_offset(text, n) < k < end ==> !is_char_boundary(encode_utf8(text), k),
    ensures
        end == byte_offset(text, n + 1),
{
    let bytes = encode_utf8(text);
    let next = byte_offset(text, n + 1);
    encode_utf8_valid_utf8(text);
    lemma_offset_is_boundary(text, n + 1);
    lemma_offset_step(text, n);
    if end < next {
        lemma_char_bytes(text, n, end);
        is_char_boundary_iff_not_is_continuation_byte(bytes, end);
    }
}

/// The last boundary before the offset of a character is the offset of the character before it.
pub proof fn lemma_previous_boundary(text: Seq<char>, n: int, start: int)
    requires
        0 < n <= text.len(),
        0 <= start < byte_offset(text, n),
        is_char_boundary(encode_utf8(text), start),
        forall|k: int|
            start < k < byte_offset(text, n) ==> !is_char_boundary(encode_utf8(text), k),
    ensures
        start == byte_offset(text, n - 1),
{
    let bytes = encode_utf8(text);
    let previous = byte_offset(text, n - 1);
    encode_utf8_valid_utf8(text);
    lemma_offset_is_boundary(text, n - 1);
    lemma_offset_step(text, n - 1);
    if previous < start {
        lemma_char_bytes(text, n - 1, start);
        is_char_boundary_iff_not_is_continuation_byte(bytes, start);
    }
}

/// Length of `s` in bytes.
pub fn byte_len(s: &str) -> (n: usize)
    ensures
        n == s.spec_bytes().len(),
{
    s.as_bytes().len()
}

/// The nearest character boundary before byte offset `i` of `s`: the start of the character
/// that ends at `i` or holds the byte before it. There is none before offset 0 or for an offset
/// beyond the end.
pub fn find_start(s: &str, i: usize) -> (r: Option<usize>)
    ensures
        match r {
            Some(start) => {
                &&& 0 < i <= s.spec_bytes().len()
                &&& start < i
                &&& is_char_boundary(s.spec_bytes(), start as int)
                &&& forall|k: int| start < k < i ==> !is_char_boundary(s.spec_bytes(), k)
            },
            None => i == 0 || i > s.spec_bytes().len(),
        },
{
    let len = byte_len(s);
    if i == 0 || i > len {
        return None;
    }
    let mut start: usize = i - 1;
    while !s.is_char_boundary(start)
        invariant
            start < i <= len,
            len == s.spec_bytes().len(),
            forall|k: int| start < k < i ==> !is_char_boundary(s.spec_bytes(), k),
        decreases start,
    {
        proof {
            encode_utf8_valid_utf8(s@);
        }
        start -= 1;
    }
    Some(start)
}

/// The nearest character boundary after byte offset `i` of `s`: the end of the character that
/// starts at `i` or holds that byte. There is none at or beyond the end.
pub fn find_end(s: &str, i: usize) -> (r: Option<usize>)
    ensures
        match r {
            Some(end) => {
                &&& i < end <= s.spec_bytes().len()
                &&& is_char_boundary(s.spec_bytes(), end as int)
                &&& forall|k: int| i < k < end ==> !is_char_boundary(s.spec_bytes(), k)
            },
            None => i >= s.spec_bytes().len(),
        },
{
    let len = byte_len(s);
    if i >= len {
        return None;
    }
    let mut end: usize = i + 1;
    while !s.is_char_boundary(end)
        invariant
            i < end <= len,
            len == s.spec_bytes().len(),
            forall|k: int| i < k < end ==> !is_char_boundary(s.spec_bytes(), k),
        decreases len - end,
    {
        proof {
            encode_utf8_valid_utf8(s@);
            is_char_boundary_start_end_of_seq(s.spec_bytes());
        }
        end += 1;
    }
    Some(end)
}

/// The part of `s` between two character boundaries, given as byte offsets.
pub fn slice_between<'a>(s: &'a str, from: usize, to: usize) -> (r: &'a str)
    requires
        from <= to <= s.spec_bytes().len(),
        is_char_boundary(s.spec_bytes(), from as int),
        is_char_boundary(s.spec_bytes(), to as int),
    ensures
        r.spec_bytes() == s.spec_bytes().subrange(from as int, to as int),
        r@ == s@.subrange(char_index(s@, from as int), char_index(s@, to as int)),
{
    proof {
        encode_utf8_valid_utf8(s@);
        lemma_boundary_in_prefix(s.spec_bytes(), from as int, to as int);
    }
    let (head, _) = s.split_at(to);
    let (_, r) = head.split_at(from);
    proof {
        let bytes = s.spec_bytes();
        assert(r.spec_bytes() =~= bytes.subrange(from as int, to as int));
        let m = lemma_boundary_is_offset(s@, from as int);
        let n = lemma_boundary_is_offset(s@, to as int);
        lemma_index_of_offset(s@, m);
        lemma_index_of_offset(s@, n);
        if n < m {
            lemma_offset_increases(s@, n, m);
        }
        lemma_slice(s@, m, n);
        lemma_encode_injective(r@, s@.subrange(m, n));
    }
    r
}

} // verus!
