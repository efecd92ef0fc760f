//! Search in texts: for a text within another, and for a character from either end.
//!
//! The searches run over the bytes of a text; what they find is stated over its characters.
use crate::text::{
    byte_len, byte_offset, find_end, find_start, lemma_boundary_is_offset, lemma_encode_injective,
    lemma_encode_prefix, lemma_index_of_offset, lemma_next_boundary, lemma_offset_ends,
    lemma_offset_is_boundary, lemma_previous_boundary, lemma_slice, lemma_split, slice_between,
};
use vstd::prelude::*;
use vstd::utf8::*;

verus! {

/// Whether `pattern` stands in `items` from index `at` on.
pub open spec fn stands_at<A>(items: Seq<A>, pattern: Seq<A>, at: int) -> bool {
    &&& 0 <= at
    &&& at + pattern.len() <= items.len()
    &&& items.subrange(at, at + pattern.len()) == pattern
}

/// Whether `needle` stands somewhere in `text`, character for character.
pub open spec fn occurs_in(needle: Seq<char>, text: Seq<char>) -> bool {
    exists|i: int| stands_at(text, needle, i)
}

/// Whether `pattern` stands in `bytes` at offset `at`.
pub fn matches_at(bytes: &[u8], pattern: &[u8], at: usize) -> (b: bool)
    requires
        at + pattern@.len() <= bytes@.len(),
    ensures
        b == stands_at(bytes@, pattern@, at as int),
{
    let len = bytes.len();
    let mut k: usize = 0;
    while k < pattern.len()
        invariant
            len == bytes@.len(),
            at + pattern@.len() <= bytes@.len(),
            k <= pattern@.len(),
            forall|j: int| 0 <= j < k ==> bytes@[at + j] == pattern@[j],
        decreases pattern@.len() - k,
    {
        if bytes[at + k] != pattern[k] {
            return false;
        }
        k += 1;
    }
    assert(bytes@.subrange(at as int, at + pattern@.len()) =~= pattern@);
    true
}

/// Whether two texts hold the same characters.
pub fn same_text(a: &str, b: &str) -> (same: bool)
    ensures
        same == (a@ == b@),
{
    let x = a.as_bytes();
    let y = b.as_bytes();
    if x.len() != y.len() {
        return false;
    }
    let same = matches_at(x, y, 0);
    proof {
        assert(x@.subrange(0, y@.len() as int) =~= x@);
        if same {
            lemma_encode_injective(a@, b@);
        }
    }
    same
}

/// A place at which the bytes of `needle` stand in the bytes of `text` is the offset of a
/// character, from which on `text` holds the characters of `needle`.
proof fn lemma_byte_match(needle: Seq<char>, text: Seq<char>, at: int)
    requires
        stands_at(encode_utf8(text), encode_utf8(needle), at),
    ensures
        occurs_in(needle, text),
{
    let hay = encode_utf8(text);
    let pat = encode_utf8(needle);
    if needle.len() == 0 {
        assert(text.subrange(0, 0int + needle.len()) =~= needle);
        assert(stands_at(text, needle, 0));
    } else {
        encode_utf8_valid_utf8(text);
        encode_utf8_valid_utf8(needle);
        is_char_boundary_iff_not_is_continuation_byte(hay, at);
        let j = lemma_boundary_is_offset(text, at);
        lemma_split(text, j);
        let tail = text.skip(j);
        assert(encode_utf8(tail).take(pat.len() as int) =~= hay.subrange(at, at + pat.len()));
        lemma_encode_prefix(needle, tail);
        assert(text.subrange(j, j + needle.len()) =~= tail.take(needle.len() as int));
        assert(stands_at(text, needle, j));
    }
}

/// Whether `needle` stands somewhere in `text`.
pub fn occurs(needle: &str, text: &str) -> (b: bool)
    ensures
        b == occurs_in(needle@, text@),
{
    let hay = text.as_bytes();
    let pat = needle.as_bytes();
    let n = hay.len();
    let m = pat.len();
    proof {
        if occurs_in(needle@, text@) {
            let j = choose|j: int| stands_at(text@, needle@, j);
            lemma_slice(text@, j, j + needle@.len());
            assert(stands_at(hay@, pat@, byte_offset(text@, j)));
        }
    }
    if m > n {
        return false;
    }
    let last = n - m;
    let mut i: usize = 0;
    loop
        invariant
            last == n - m,
            n == hay@.len(),
            m == pat@.len(),
            hay@ == encode_utf8(text@),
            pat@ == encode_utf8(needle@),
            i <= last,
            forall|k: int| 0 <= k < i ==> !stands_at(hay@, pat@, k),
            occurs_in(needle@, text@) ==> exists|k: int| stands_at(hay@, pat@, k),
        decreases last - i,
    {
        if matches_at(hay, pat, i) {
            proof {
                lemma_byte_match(needle@, text@, i as int);
            }
            return true;
        }
        if i == last {
            return false;
        }
        i += 1;
    }
}

/// The characters of `s`, one by one.
pub fn chars_of(s: &str) -> (out: Vec<char>)
    ensures
        out@ == s@,
{
    let mut out: Vec<char> = Vec::new();
    for c in it: s.chars()
        invariant
            out@ == it.seq().take(it.index()),
            it.seq() == s@,
    {
        out.push(c);
    }
    out
}

/// Index of the last `c` among the first `upto` characters of `text`, or -1 if there is none.
pub open spec fn last_index_of(text: Seq<char>, c: char, upto: int) -> int
    decreases upto,
{
    if upto <= 0 {
        -1
    } else if text[upto - 1] == c {
        upto - 1
    } else {
        last_index_of(text, c, upto - 1)
    }
}

/// The last `c` is a `c`, and no `c` follows it.
pub proof fn lemma_last_index_of(text: Seq<char>, c: char, upto: int)
    requires
        0 <= upto <= text.len(),
    ensures
        -1 <= last_index_of(text, c, upto) < upto,
        last_index_of(text, c, upto) >= 0 ==> text[last_index_of(text, c, upto)] == c,
        forall|k: int| last_index_of(text, c, upto) < k < upto ==> text[k] != c,
    decreases upto,
{
    if upto > 0 && text[upto - 1] != c {
        lemma_last_index_of(text, c, upto - 1);
    }
}

/// Where a search backwards for `c` stops is where [`last_index_of`] says.
pub proof fn lemma_last_found(text: Seq<char>, c: char, upto: int, at: int)
    requires
        -1 <= at < upto <= text.len(),
        at >= 0 ==> text[at] == c,
        forall|k: int| at < k < upto ==> text[k] != c,
    ensures
        last_index_of(text, c, upto) == at,
    decreases upto,
{
    if upto > 0 && at < upto - 1 {
        lemma_last_found(text, c, upto - 1, at);
    }
}

/// Whether the first character of `s` is `c`.
pub fn starts_with_char(s: &str, c: char) -> (b: bool)
    ensures
        b == (s@.len() > 0 && s@[0] == c),
{
    match find_end(s, 0) {
        None => false,
        Some(end) => {
            proof {
                encode_utf8_valid_utf8(s@);
                lemma_next_boundary(s@, 0, end as int);
                lemma_index_of_offset(s@, 1);
            }
            slice_between(s, 0, end).get_char(0) == c
        },
    }
}

/// Byte offset of the last `c` in `s`, if there is one.
pub fn rfind_char(s: &str, c: char) -> (r: Option<usize>)
    ensures
        match r {
            Some(at) => {
                &&& 0 <= last_index_of(s@, c, s@.len() as int)
                &&& at == byte_offset(s@, last_index_of(s@, c, s@.len() as int))
            },
            None => last_index_of(s@, c, s@.len() as int) < 0,
        },
{
    let mut end = byte_len(s);
    let ghost mut n = s@.len() as int;
    proof {
        lemma_offset_ends(s@);
    }
    loop
        invariant
            0 <= n <= s@.len(),
            end == byte_offset(s@, n),
            forall|k: int| n <= k < s@.len() ==> s@[k] != c,
        decreases n,
    {
        proof {
            lemma_offset_is_boundary(s@, n);
            lemma_split(s@, n);
        }
        match find_start(s, end) {
            None => {
                proof {
                    lemma_last_found(s@, c, s@.len() as int, -1);
                }
                return None;
            },
            Some(start) => {
                proof {
                    lemma_previous_boundary(s@, n, start as int);
                    lemma_index_of_offset(s@, n - 1);
                    lemma_index_of_offset(s@, n);
                }
                if slice_between(s, start, end).get_char(0) == c {
                    proof {
                        lemma_last_found(s@, c, s@.len() as int, n - 1);
                    }
                    return Some(start);
                }
                end = start;
                proof {
                    n = n - 1;
                }
            },
        }
    }
}

} // verus!
