//! The text source a selection reads from, and the two offset spaces over it.
//!
//! The editor addresses text by character offset; the pattern engine works in
//! byte offsets over the UTF-8 encoding of a fragment. The conversions live
//! behind the text source, and the functions here pin down what they mean:
//! the byte offset of a character is the summed encoded width of the
//! characters before it. A byte offset produced that way is a boundary, and
//! boundaries convert back to character offsets uniquely.
use ropey::RopeSlice;
use vstd::prelude::*;

verus! {

/// Number of bytes the UTF-8 encoding of a character takes.
pub open spec fn utf8_len(c: char) -> int {
    if (c as u32) < 0x80 {
        1
    } else if (c as u32) < 0x800 {
        2
    } else if (c as u32) < 0x10000 {
        3
    } else {
        4
    }
}

/// Byte length of the UTF-8 encoding of the first `n` characters.
pub open spec fn byte_len_of_prefix(s: Seq<char>, n: int) -> int
    decreases n,
{
    if n <= 0 {
        0
    } else {
        byte_len_of_prefix(s, n - 1) + utf8_len(s[n - 1])
    }
}

/// `b` is the byte offset of some character boundary of `s`, the end included.
pub open spec fn is_byte_boundary(s: Seq<char>, b: int) -> bool {
    exists|k: int| 0 <= k <= s.len() && byte_len_of_prefix(s, k) == b
}

/// The character offset of the boundary at byte offset `b`.
pub open spec fn boundary_char_index(s: Seq<char>, b: int) -> int {
    choose|k: int| 0 <= k <= s.len() && byte_len_of_prefix(s, k) == b
}

/// Byte offsets grow with character offsets, strictly below the length.
pub proof fn lemma_byte_len_mono(s: Seq<char>, m: int, n: int)
    requires
        0 <= m <= n,
    ensures
        byte_len_of_prefix(s, m) <= byte_len_of_prefix(s, n),
        (m < n && n <= s.len()) ==> byte_len_of_prefix(s, m) < byte_len_of_prefix(s, n),
    decreases n - m,
{
    if m < n {
        lemma_byte_len_mono(s, m, n - 1);
    }
}

/// Two character offsets with the same byte offset are the same offset.
pub proof fn lemma_byte_len_injective(s: Seq<char>, k1: int, k2: int)
    requires
        0 <= k1 <= s.len(),
        0 <= k2 <= s.len(),
        byte_len_of_prefix(s, k1) == byte_len_of_prefix(s, k2),
    ensures
        k1 == k2,
{
    if k1 < k2 {
        lemma_byte_len_mono(s, k1, k2);
    }
    if k2 < k1 {
        lemma_byte_len_mono(s, k2, k1);
    }
}

/// Prefix byte lengths agree on sequences that agree on that prefix.
pub proof fn lemma_byte_len_prefix_eq(s1: Seq<char>, s2: Seq<char>, k: int)
    requires
        k <= s1.len(),
        k <= s2.len(),
        forall|i: int| 0 <= i < k ==> s1[i] == s2[i],
    ensures
        byte_len_of_prefix(s1, k) == byte_len_of_prefix(s2, k),
    decreases k,
{
    if k > 0 {
        lemma_byte_len_prefix_eq(s1, s2, k - 1);
    }
}

/// Splitting a prefix at a character offset splits its byte length: the byte
/// offset of `c + k` in `s` is the byte offset of `c` plus the byte offset of
/// `k` inside the tail of `s` that starts at `c`.
pub proof fn lemma_byte_len_split(s: Seq<char>, c: int, k: int)
    requires
        0 <= c,
        0 <= k,
        c + k <= s.len(),
    ensures
        byte_len_of_prefix(s, c + k) == byte_len_of_prefix(s, c) + byte_len_of_prefix(
            s.skip(c),
            k,
        ),
    decreases k,
{
    if k > 0 {
        lemma_byte_len_split(s, c, k - 1);
        assert(s.skip(c)[k - 1] == s[c + k - 1]);
    }
}

/// As [`lemma_byte_len_split`], with the tail cut to any window `c..to`
/// that the prefix stays inside.
pub proof fn lemma_byte_len_split_window(s: Seq<char>, c: int, to: int, k: int)
    requires
        0 <= c <= to <= s.len(),
        0 <= k <= to - c,
    ensures
        byte_len_of_prefix(s, c + k) == byte_len_of_prefix(s, c) + byte_len_of_prefix(
            s.subrange(c, to),
            k,
        ),
{
    lemma_byte_len_split(s, c, k);
    lemma_byte_len_prefix_eq(s.skip(c), s.subrange(c, to), k);
}

/// Law of round-trip offset translation: a byte span with boundary endpoints
/// inside the encoded fragment `s[from..to]`, translated back to absolute
/// character offsets, re-slices the text source to exactly the spanned
/// fragment characters.
pub proof fn lemma_match_round_trip(s: Seq<char>, from: int, to: int, b0: int, b1: int)
    requires
        0 <= from <= to <= s.len(),
        is_byte_boundary(s.subrange(from, to), b0),
        is_byte_boundary(s.subrange(from, to), b1),
        b0 <= b1,
    ensures
        ({
            let frag = s.subrange(from, to);
            let k0 = boundary_char_index(frag, b0);
            let k1 = boundary_char_index(frag, b1);
            &&& 0 <= k0 <= k1 <= frag.len()
            &&& byte_len_of_prefix(s, from + k0) == byte_len_of_prefix(s, from) + b0
            &&& byte_len_of_prefix(s, from + k1) == byte_len_of_prefix(s, from) + b1
            &&& s.subrange(from + k0, from + k1) == frag.subrange(k0, k1)
        }),
{
    let frag = s.subrange(from, to);
    let k0 = boundary_char_index(frag, b0);
    let k1 = boundary_char_index(frag, b1);
    assert(0 <= k0 <= frag.len() && byte_len_of_prefix(frag, k0) == b0);
    assert(0 <= k1 <= frag.len() && byte_len_of_prefix(frag, k1) == b1);
    if k1 < k0 {
        lemma_byte_len_mono(frag, k1, k0);
    }
    lemma_byte_len_split_window(s, from, to, k0);
    lemma_byte_len_split_window(s, from, to, k1);
    assert(s.subrange(from + k0, from + k1) =~= frag.subrange(k0, k1));
}

#[verifier::external_type_specification]
#[verifier::external_body]
pub struct ExRopeSlice<'a>(RopeSlice<'a>);

pub uninterp spec fn rope_chars(text: RopeSlice) -> Seq<char>;

/// Relies on ropey's `RopeSlice::char_to_byte`: the byte index of the given
/// char, one-past-the-end included.
#[verifier::external_body]
pub fn rope_char_to_byte(text: RopeSlice, char_idx: usize) -> (b: usize)
    requires
        char_idx <= rope_chars(text).len(),
    ensures
        b == byte_len_of_prefix(rope_chars(text), char_idx as int),
{
    text.char_to_byte(char_idx)
}

/// Relies on ropey's `RopeSlice::byte_to_char`: the char index of the given
/// byte; on a character boundary that is the character the boundary starts.
#[verifier::external_body]
pub fn rope_byte_to_char(text: RopeSlice, byte_idx: usize) -> (ci: usize)
    requires
        is_byte_boundary(rope_chars(text), byte_idx as int),
    ensures
        ci <= rope_chars(text).len(),
        byte_len_of_prefix(rope_chars(text), ci as int) == byte_idx,
{
    text.byte_to_char(byte_idx)
}

/// Relies on ropey's `RopeSlice::slice` and its `String` conversion: the
/// characters of the char-offset window `from..to`.
#[verifier::external_body]
pub fn rope_slice_string(text: RopeSlice, from: usize, to: usize) -> (r: String)
    requires
        from <= to,
        to <= rope_chars(text).len(),
    ensures
        r@ == rope_chars(text).subrange(from as int, to as int),
{
    String::from(text.slice(from..to))
}

} // verus!
