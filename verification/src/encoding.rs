//! Byte-offset bookkeeping for character sequences.
//!
//! Normalizers report, for every byte of their output, the byte offset in the
//! original text it came from. The logic works on `Seq<char>`, so these
//! helpers give the UTF-8 byte length of a character and of a character
//! sequence, tied to vstd's UTF-8 encoding specification, together with
//! executable conversions between `&str`, `Vec<char>` and `String`.

use vstd::prelude::*;
use vstd::string::StrSliceExecFns;
use vstd::utf8::{char_is_scalar, encode_scalar, encode_utf8};

verus! {

broadcast use vstd::slice::group_slice_axioms;

/// Number of bytes of the UTF-8 encoding of one character.
pub open spec fn char_len(c: char) -> int {
    if (c as u32) < 0x80 {
        1
    } else if (c as u32) < 0x800 {
        2
    } else if (c as u32) < 0x10000 {
        3
    } else {
        4
    }
}

/// Number of bytes of the UTF-8 encoding of a character sequence.
pub open spec fn utf8_len(s: Seq<char>) -> int
    decreases s.len(),
{
    if s.len() == 0 {
        0
    } else {
        char_len(s[0]) + utf8_len(s.drop_first())
    }
}

/// `char_len` agrees with the length of vstd's per-scalar UTF-8 encoding.
pub proof fn lemma_char_len_is_encoding_len(c: char)
    ensures
        char_len(c) == encode_scalar(c as u32).len(),
{
    char_is_scalar(c);
}

/// `utf8_len` agrees with the length of vstd's UTF-8 encoding, and so with
/// the byte length `str::len` reports for a string of those characters.
pub proof fn lemma_utf8_len_is_encoding_len(s: Seq<char>)
    ensures
        utf8_len(s) == encode_utf8(s).len(),
    decreases s.len(),
{
    if s.len() > 0 {
        lemma_char_len_is_encoding_len(s[0]);
        lemma_utf8_len_is_encoding_len(s.drop_first());
    }
}

/// A character sequence takes at least one byte per character.
pub proof fn lemma_utf8_len_ge_len(s: Seq<char>)
    ensures
        utf8_len(s) >= s.len(),
    decreases s.len(),
{
    if s.len() > 0 {
        lemma_utf8_len_ge_len(s.drop_first());
    }
}

/// Byte length splits at any character index.
pub proof fn lemma_utf8_len_split(s: Seq<char>, i: int)
    requires
        0 <= i <= s.len(),
    ensures
        utf8_len(s) == utf8_len(s.take(i)) + utf8_len(s.skip(i)),
    decreases i,
{
    if i == 0 {
        assert(s.take(0) =~= Seq::<char>::empty());
        assert(s.skip(0) =~= s);
    } else {
        assert(s.take(i)[0] == s[0]);
        assert(s.take(i).drop_first() =~= s.drop_first().take(i - 1));
        assert(s.skip(i) =~= s.drop_first().skip(i - 1));
        lemma_utf8_len_split(s.drop_first(), i - 1);
    }
}

/// Byte length grows by `char_len` when one character is appended.
pub proof fn lemma_utf8_len_snoc(s: Seq<char>, c: char)
    ensures
        utf8_len(s.push(c)) == utf8_len(s) + char_len(c),
{
    lemma_utf8_len_split(s.push(c), s.len() as int);
    assert(s.push(c).take(s.len() as int) =~= s);
    assert(s.push(c).skip(s.len() as int) =~= seq![c]);
    assert(seq![c].drop_first() =~= Seq::<char>::empty());
    assert(utf8_len(Seq::<char>::empty()) == 0);
    assert(utf8_len(seq![c]) == char_len(c) + utf8_len(seq![c].drop_first()));
}

/// Byte length distributes over concatenation.
pub proof fn lemma_utf8_len_concat(a: Seq<char>, b: Seq<char>)
    ensures
        utf8_len(a + b) == utf8_len(a) + utf8_len(b),
{
    lemma_utf8_len_split(a + b, a.len() as int);
    assert((a + b).take(a.len() as int) =~= a);
    assert((a + b).skip(a.len() as int) =~= b);
}

/// The same byte offset repeated once per byte of an output character.
pub open spec fn repeat_offset(off: int, n: int) -> Seq<usize> {
    Seq::new(if n >= 0 {
        n as nat
    } else {
        0
    }, |k: int| off as usize)
}

/// Byte length of one character, executable form.
pub fn char_utf8_len(c: char) -> (n: usize)
    ensures
        n == char_len(c),
{
    let v = c as u32;
    if v < 0x80 {
        1
    } else if v < 0x800 {
        2
    } else if v < 0x10000 {
        3
    } else {
        4
    }
}

/// Byte length of a string slice, tied to `utf8_len` of its characters.
pub fn str_byte_len(s: &str) -> (n: usize)
    ensures
        n == utf8_len(s@),
{
    proof {
        lemma_utf8_len_is_encoding_len(s@);
    }
    let b = s.as_bytes();
    b.len()
}

/// Collect the characters of a string slice.
pub fn str_to_chars(s: &str) -> (v: Vec<char>)
    ensures
        v@ == s@,
{
    let n = s.unicode_len();
    let mut v: Vec<char> = Vec::new();
    let mut i: usize = 0;
    while i < n
        invariant
            n == s@.len(),
            i <= n,
            v@ == s@.take(i as int),
        decreases n - i,
    {
        let c = s.get_char(i);
        v.push(c);
        i = i + 1;
        proof {
            assert(v@ =~= s@.take(i as int));
        }
    }
    proof {
        assert(v@ =~= s@);
    }
    v
}

/// Relies on `String::push`: appends one character to the string.
#[verifier::external_body]
fn push_char(s: &mut String, c: char)
    ensures
        final(s)@ == old(s)@.push(c),
{
    s.push(c);
}

/// Build a string from a character vector.
pub fn chars_to_string(v: &Vec<char>) -> (s: String)
    ensures
        s@ == v@,
{
    let mut s = String::new();
    let mut i: usize = 0;
    while i < v.len()
        invariant
            i <= v@.len(),
            s@ == v@.take(i as int),
        decreases v@.len() - i,
    {
        push_char(&mut s, v[i]);
        i = i + 1;
        proof {
            assert(s@ =~= v@.take(i as int));
        }
    }
    proof {
        assert(s@ =~= v@);
    }
    s
}

/// Byte length of prefixes grows strictly with the character index.
pub proof fn lemma_utf8_len_take_mono(s: Seq<char>, i: int, j: int)
    requires
        0 <= i <= j <= s.len(),
    ensures
        utf8_len(s.take(i)) <= utf8_len(s.take(j)),
        i < j ==> utf8_len(s.take(i)) < utf8_len(s.take(j)),
{
    lemma_utf8_len_split(s.take(j), i);
    assert(s.take(j).take(i) =~= s.take(i));
    lemma_utf8_len_ge_len(s.take(j).skip(i));
}

/// A byte position that falls between characters: the byte length of some
/// prefix of the text.
pub open spec fn is_boundary(s: Seq<char>, b: int) -> bool {
    exists|k: int| 0 <= k <= s.len() && utf8_len(s.take(k)) == b
}

/// The character index whose prefix has byte length `b`.
pub open spec fn char_index_of(s: Seq<char>, b: int) -> int {
    choose|k: int| 0 <= k <= s.len() && utf8_len(s.take(k)) == b
}

/// At a boundary the character index is unique, so `char_index_of` returns
/// the witness.
pub proof fn lemma_char_index_of(s: Seq<char>, b: int, k: int)
    requires
        0 <= k <= s.len(),
        utf8_len(s.take(k)) == b,
    ensures
        char_index_of(s, b) == k,
{
    assert(0 <= k <= s.len() && utf8_len(s.take(k)) == b);
    let k2 = char_index_of(s, b);
    assert(0 <= k2 <= s.len() && utf8_len(s.take(k2)) == b);
    if k2 < k {
        lemma_utf8_len_take_mono(s, k2, k);
    }
    if k < k2 {
        lemma_utf8_len_take_mono(s, k, k2);
    }
}

/// Consecutive byte offsets, one per byte position in `from..to`.
pub open spec fn identity_offsets(from: int, to: int) -> Seq<usize> {
    Seq::new(
        if to >= from {
            (to - from) as nat
        } else {
            0
        },
        |k: int| (from + k) as usize,
    )
}

} // verus!
