//! Text normalization with byte-offset tracking.
//!
//! Each normalizer turns a string into a normalized string together with an
//! offset mapping: entry `i` of the mapping is the byte offset in the
//! original text that byte `i` of the normalized text came from. This lets
//! downstream consumers map positions in normalized text back to the input.

use vstd::prelude::*;
use vstd::string::StringExecFns;

use crate::chardata::{
    canonical_decomposition, compatibility_decomposition, compose_chars, compose_pair,
    decompose_canonical_chars, decompose_compatible_chars, is_mark_nonspacing, is_nonspacing_mark,
    lowercase_chars, to_lowercase_chars,
};
use crate::encoding::{
    char_index_of, char_len, char_utf8_len, chars_to_string, identity_offsets, is_boundary,
    lemma_char_index_of, lemma_utf8_len_concat, lemma_utf8_len_ge_len, lemma_utf8_len_snoc,
    lemma_utf8_len_split, lemma_utf8_len_take_mono, repeat_offset, str_byte_len, str_to_chars,
    utf8_len,
};

verus! {

broadcast use vstd::std_specs::vec::group_vec_axioms;

/// Errors occurring while normalizing text.
#[derive(Clone, Debug)]
pub enum NormalizeError {
    /// The regex engine rejected a pattern or failed during a search; the
    /// payload is its message.
    RegexError(String),
    /// A normalizer in a sequence reported an offset beyond the byte length
    /// of its input, so the mappings cannot be composed.
    OffsetOutOfRange,
}

impl NormalizeError {
    /// A readable description of the error.
    pub fn message(&self) -> (r: String)
        ensures
            self matches NormalizeError::RegexError(m) ==> r@ == "regex failed "@ + m@,
            self matches NormalizeError::OffsetOutOfRange ==> r@ == "offset out of range"@,
    {
        match self {
            NormalizeError::RegexError(m) => String::from_str("regex failed ").concat(m.as_str()),
            NormalizeError::OffsetOutOfRange => String::from_str("offset out of range"),
        }
    }
}

/// The concatenated lowercase mappings of a character sequence.
pub open spec fn lower_seq(s: Seq<char>) -> Seq<char>
    decreases s.len(),
{
    if s.len() == 0 {
        Seq::empty()
    } else {
        lower_seq(s.drop_last()) + lowercase_chars(s.last())
    }
}

/// The characters of `s` that are not nonspacing marks, in order.
pub open spec fn keep_unmarked(s: Seq<char>) -> Seq<char>
    decreases s.len(),
{
    if s.len() == 0 {
        Seq::empty()
    } else if is_nonspacing_mark(s.last()) {
        keep_unmarked(s.drop_last())
    } else {
        keep_unmarked(s.drop_last()).push(s.last())
    }
}

/// Accent stripping: canonical decomposition of each character with the
/// nonspacing marks removed, concatenated.
pub open spec fn strip_seq(s: Seq<char>) -> Seq<char>
    decreases s.len(),
{
    if s.len() == 0 {
        Seq::empty()
    } else {
        strip_seq(s.drop_last()) + keep_unmarked(canonical_decomposition(s.last()))
    }
}

/// Character buffer used while normalizing one input character at a time.
pub struct CharNormalizer {
    normalized: Vec<char>,
    /// Temporary buffer that holds the output of a normalization step until
    /// it is copied back to `normalized`.
    tmp: Vec<char>,
}

impl CharNormalizer {
    /// The normalized characters held so far.
    pub closed spec fn chars(&self) -> Seq<char> {
        self.normalized@
    }

    /// The characters of the in-progress step, waiting to be committed.
    pub closed spec fn pending(&self) -> Seq<char> {
        self.tmp@
    }

    /// Between steps the temporary buffer is empty.
    pub closed spec fn wf(&self) -> bool {
        self.tmp@.len() == 0
    }

    /// An empty buffer.
    pub fn new() -> (r: CharNormalizer)
        ensures
            r.wf(),
            r.chars() == Seq::<char>::empty(),
    {
        CharNormalizer { normalized: Vec::new(), tmp: Vec::new() }
    }

    /// Set the input character to normalize.
    pub fn set_char(&mut self, ch: char)
        requires
            old(self).wf(),
        ensures
            final(self).wf(),
            final(self).chars() == seq![ch],
    {
        self.tmp.push(ch);
        self.update_normalized_from_tmp();
        proof {
            assert(old(self).tmp@.push(ch) =~= seq![ch]);
        }
    }

    /// Lowercase the normalized characters.
    pub fn lower_case(&mut self)
        requires
            old(self).wf(),
        ensures
            final(self).wf(),
            final(self).chars() == lower_seq(old(self).chars()),
    {
        let ghost s = self.normalized@;
        let mut i: usize = 0;
        while i < self.normalized.len()
            invariant
                self.normalized@ == s,
                i <= s.len(),
                self.tmp@ == lower_seq(s.take(i as int)),
            decreases s.len() - i,
        {
            let c = self.normalized[i];
            let lows = to_lowercase_chars(c);
            self.tmp.extend_from_slice(lows.as_slice());
            i = i + 1;
            proof {
                assert(s.take(i as int).drop_last() =~= s.take(i - 1));
                assert(s.take(i as int).last() == s[i - 1]);
            }
        }
        proof {
            assert(s.take(s.len() as int) =~= s);
        }
        self.update_normalized_from_tmp();
    }

    /// Decompose the input into canonical (NFD) form and then remove any
    /// characters in the Unicode nonspacing mark ("Mn") category.
    pub fn strip_accents(&mut self)
        requires
            old(self).wf(),
        ensures
            final(self).wf(),
            final(self).chars() == strip_seq(old(self).chars()),
    {
        let ghost s = self.normalized@;
        let mut i: usize = 0;
        while i < self.normalized.len()
            invariant
                self.normalized@ == s,
                i <= s.len(),
                self.tmp@ == strip_seq(s.take(i as int)),
            decreases s.len() - i,
        {
            let c = self.normalized[i];
            let decomposed = decompose_canonical_chars(c);
            let ghost d = decomposed@;
            let ghost t = self.tmp@;
            let mut j: usize = 0;
            while j < decomposed.len()
                invariant
                    decomposed@ == d,
                    self.normalized@ == s,
                    j <= d.len(),
                    self.tmp@ == t + keep_unmarked(d.take(j as int)),
                decreases d.len() - j,
            {
                let dc = decomposed[j];
                if !is_mark_nonspacing(dc) {
                    self.tmp.push(dc);
                }
                j = j + 1;
                proof {
                    assert(d.take(j as int).drop_last() =~= d.take(j - 1));
                    assert(d.take(j as int).last() == d[j - 1]);
                    if !is_nonspacing_mark(d[j - 1]) {
                        assert((t + keep_unmarked(d.take(j - 1))).push(d[j - 1]) =~= t
                            + keep_unmarked(d.take(j - 1)).push(d[j - 1]));
                    }
                }
            }
            i = i + 1;
            proof {
                assert(d.take(d.len() as int) =~= d);
                assert(s.take(i as int).drop_last() =~= s.take(i - 1));
                assert(s.take(i as int).last() == s[i - 1]);
            }
        }
        proof {
            assert(s.take(s.len() as int) =~= s);
        }
        self.update_normalized_from_tmp();
    }

    /// Return the normalized characters.
    pub fn normalized(&self) -> (r: &[char])
        ensures
            r@ == self.chars(),
    {
        self.normalized.as_slice()
    }

    /// Commit the in-progress step: the temporary buffer becomes the
    /// normalized text and is emptied.
    pub fn update_normalized_from_tmp(&mut self)
        ensures
            final(self).wf(),
            final(self).chars() == old(self).pending(),
    {
        self.normalized.clear();
        self.normalized.extend_from_slice(self.tmp.as_slice());
        self.tmp.clear();
        proof {
            assert(Seq::<char>::empty() + old(self).tmp@ =~= old(self).tmp@);
        }
    }
}

/// What the BERT normalizer makes of one input character.
pub open spec fn bert_char(lowercase: bool, strip: bool, c: char) -> Seq<char> {
    let s0 = seq![c];
    let s1 = if strip {
        strip_seq(s0)
    } else {
        s0
    };
    if lowercase {
        lower_seq(s1)
    } else {
        s1
    }
}

/// The BERT-normalized form of a character sequence.
pub open spec fn bert_chars(lowercase: bool, strip: bool, s: Seq<char>) -> Seq<char>
    decreases s.len(),
{
    if s.len() == 0 {
        Seq::empty()
    } else {
        bert_chars(lowercase, strip, s.drop_last()) + bert_char(lowercase, strip, s.last())
    }
}

/// The offset mapping of the BERT normalizer: every output byte that comes
/// from input character `i` maps to that character's starting byte offset.
pub open spec fn bert_offsets(lowercase: bool, strip: bool, s: Seq<char>) -> Seq<usize>
    decreases s.len(),
{
    if s.len() == 0 {
        Seq::empty()
    } else {
        bert_offsets(lowercase, strip, s.drop_last()) + repeat_offset(
            utf8_len(s.drop_last()),
            utf8_len(bert_char(lowercase, strip, s.last())),
        )
    }
}

/// Configuration for a [`Bert`] normalizer.
#[derive(Clone, Debug)]
pub struct BertOptions {
    /// If true, convert all text to lowercase using the Unicode lowercase
    /// mapping of each character.
    pub lowercase: bool,
    /// Whether to strip accents when tokenizing. An "accent" is defined as
    /// any Unicode character in the nonspacing mark ("Mn") category.
    pub strip_accents: bool,
}

impl Default for BertOptions {
    /// All steps disabled.
    fn default() -> (r: BertOptions)
        ensures
            !r.lowercase,
            !r.strip_accents,
    {
        BertOptions { lowercase: false, strip_accents: false }
    }
}

/// A normalizer that implements normalization used by BERT and BERT-derived
/// models.
#[derive(Clone, Debug)]
pub struct Bert {
    /// Lowercase the text.
    pub lowercase: bool,
    /// Strip accents from the text.
    pub strip_accents: bool,
}

impl Bert {
    /// A BERT normalizer with the given options.
    pub fn new(opts: BertOptions) -> (r: Bert)
        ensures
            r.lowercase == opts.lowercase,
            r.strip_accents == opts.strip_accents,
    {
        Bert { lowercase: opts.lowercase, strip_accents: opts.strip_accents }
    }

    /// True if this normalizer doesn't alter its input.
    pub open spec fn spec_is_noop(self) -> bool {
        !self.lowercase && !self.strip_accents
    }

    /// Return true if this normalizer doesn't alter its input.
    pub fn is_noop(&self) -> (r: bool)
        ensures
            r == self.spec_is_noop(),
    {
        !self.lowercase && !self.strip_accents
    }

    /// The normalized text and offset mapping this normalizer produces.
    pub open spec fn spec_normalize(self, text: Seq<char>) -> (Seq<char>, Seq<usize>) {
        if self.spec_is_noop() {
            (text, Seq::new(utf8_len(text) as nat, |i: int| i as usize))
        } else {
            (
                bert_chars(self.lowercase, self.strip_accents, text),
                bert_offsets(self.lowercase, self.strip_accents, text),
            )
        }
    }

    /// Apply the configured normalization steps to `text`, returning the
    /// normalized string and, for each of its bytes, the byte offset in
    /// `text` it came from. Never fails.
    pub fn normalize(&self, text: &str) -> (r: Result<(String, Vec<usize>), NormalizeError>)
        ensures
            r matches Ok(p) && p.0@ == self.spec_normalize(text@).0 && p.1@ == self.spec_normalize(
                text@,
            ).1,
    {
        let byte_len = str_byte_len(text);
        if self.is_noop() {
            let normalized = text.to_owned();
            let mut offsets: Vec<usize> = Vec::new();
            let mut k: usize = 0;
            while k < byte_len
                invariant
                    byte_len == utf8_len(text@),
                    k <= byte_len,
                    offsets@ == Seq::new(k as nat, |i: int| i as usize),
                decreases byte_len - k,
            {
                offsets.push(k);
                k = k + 1;
                proof {
                    assert(offsets@ =~= Seq::new(k as nat, |i: int| i as usize));
                }
            }
            return Ok((normalized, offsets));
        }
        let chars = str_to_chars(text);
        let ghost s = chars@;
        let mut out: Vec<char> = Vec::new();
        let mut offsets: Vec<usize> = Vec::new();
        let mut char_normalizer = CharNormalizer::new();
        let mut byte_off: usize = 0;
        let mut i: usize = 0;
        while i < chars.len()
            invariant
                chars@ == s,
                s == text@,
                byte_len == utf8_len(text@),
                i <= s.len(),
                byte_off == utf8_len(s.take(i as int)),
                out@ == bert_chars(self.lowercase, self.strip_accents, s.take(i as int)),
                offsets@ == bert_offsets(self.lowercase, self.strip_accents, s.take(i as int)),
                char_normalizer.wf(),
            decreases s.len() - i,
        {
            let ch = chars[i];
            char_normalizer.set_char(ch);
            if self.strip_accents {
                char_normalizer.strip_accents();
                proof {
                    assert(seq![ch].drop_last() =~= Seq::<char>::empty());
                }
            }
            if self.lowercase {
                char_normalizer.lower_case();
            }
            let ghost out0 = out@;
            let ghost offs0 = offsets@;
            let produced = char_normalizer.normalized();
            let ghost p = produced@;
            assert(p == bert_char(self.lowercase, self.strip_accents, ch));
            let mut j: usize = 0;
            let ghost mut produced_bytes: int = 0;
            while j < produced.len()
                invariant
                    produced@ == p,
                    j <= p.len(),
                    out@ == out0 + p.take(j as int),
                    produced_bytes == utf8_len(p.take(j as int)),
                    offsets@ == offs0 + repeat_offset(byte_off as int, produced_bytes),
                    byte_off == utf8_len(s.take(i as int)),
                    i < s.len(),
                    byte_len == utf8_len(text@),
                    s == text@,
                decreases p.len() - j,
            {
                let pc = produced[j];
                out.push(pc);
                let pc_len = char_utf8_len(pc);
                let ghost offs1 = offsets@;
                let mut b: usize = 0;
                while b < pc_len
                    invariant
                        b <= pc_len,
                        pc_len == char_len(pc),
                        offsets@ == offs1 + repeat_offset(byte_off as int, b as int),
                    decreases pc_len - b,
                {
                    offsets.push(byte_off);
                    b = b + 1;
                    proof {
                        assert(offs1 + repeat_offset(byte_off as int, b - 1) + seq![byte_off]
                            =~= offs1 + repeat_offset(byte_off as int, b as int));
                    }
                }
                j = j + 1;
                proof {
                    assert(p.take(j as int) =~= p.take(j - 1).push(p[j - 1]));
                    lemma_utf8_len_snoc(p.take(j - 1), p[j - 1]);
                    lemma_utf8_len_ge_len(p.take(j - 1));
                    assert(out0 + p.take(j - 1) + seq![p[j - 1]] =~= out0 + p.take(j as int));
                    assert(offs1 + repeat_offset(byte_off as int, char_len(p[j - 1])) =~= offs0
                        + repeat_offset(byte_off as int, utf8_len(p.take(j as int))));
                    produced_bytes = utf8_len(p.take(j as int));
                }
            }
            proof {
                assert(p.take(p.len() as int) =~= p);
                // The bytes consumed so far never exceed the total byte length.
                assert(s.take(i + 1) =~= s.take(i as int).push(s[i as int]));
                lemma_utf8_len_snoc(s.take(i as int), s[i as int]);
                lemma_utf8_len_split(s, i + 1);
                lemma_utf8_len_ge_len(s.skip(i + 1));
                assert(s.take(i + 1).drop_last() =~= s.take(i as int));
                assert(s.take(i + 1).last() == s[i as int]);
            }
            let ch_len = char_utf8_len(ch);
            byte_off = byte_off + ch_len;
            i = i + 1;
            proof {
                assert(out@ =~= bert_chars(self.lowercase, self.strip_accents, s.take(i as int)));
                assert(offsets@ =~= bert_offsets(
                    self.lowercase,
                    self.strip_accents,
                    s.take(i as int),
                ));
            }
        }
        proof {
            assert(s.take(s.len() as int) =~= s);
        }
        let normalized = chars_to_string(&out);
        Ok((normalized, offsets))
    }
}

/// One NFC build step: canonically compose `ch` with the last buffered
/// character if possible, otherwise append `ch` with its own offset.
pub open spec fn nfc_push(cs: Seq<char>, os: Seq<usize>, ch: char, off: usize) -> (Seq<
    char,
>, Seq<usize>) {
    if cs.len() == 0 {
        (cs.push(ch), os.push(off))
    } else {
        match compose_chars(cs.last(), ch) {
            Some(cc) => (cs.drop_last().push(cc), os),
            None => (cs.push(ch), os.push(off)),
        }
    }
}

/// [`nfc_push`] applied to each character of `ds` in order, all carrying the
/// same source offset.
pub open spec fn nfc_push_all(cs: Seq<char>, os: Seq<usize>, ds: Seq<char>, off: usize) -> (Seq<
    char,
>, Seq<usize>)
    decreases ds.len(),
{
    if ds.len() == 0 {
        (cs, os)
    } else {
        let st = nfc_push_all(cs, os, ds.drop_last(), off);
        nfc_push(st.0, st.1, ds.last(), off)
    }
}

/// What one input character at byte offset `off` does to the buffer, for
/// each normalization form.
pub open spec fn unicode_step(
    form: Unicode,
    cs: Seq<char>,
    os: Seq<usize>,
    c: char,
    off: usize,
) -> (Seq<char>, Seq<usize>) {
    match form {
        Unicode::Nfc => nfc_push(cs, os, c, off),
        Unicode::Nfd => (
            cs + canonical_decomposition(c),
            os + Seq::new(canonical_decomposition(c).len(), |k: int| off),
        ),
        Unicode::Nfkc => nfc_push_all(cs, os, compatibility_decomposition(c), off),
        Unicode::Nfkd => (
            cs + compatibility_decomposition(c),
            os + Seq::new(compatibility_decomposition(c).len(), |k: int| off),
        ),
    }
}

/// The buffer after normalizing `text`: characters of the normalized text
/// and, for each, the byte offset of the input character it came from.
pub open spec fn unicode_run(form: Unicode, text: Seq<char>) -> (Seq<char>, Seq<usize>)
    decreases text.len(),
{
    if text.len() == 0 {
        (Seq::empty(), Seq::empty())
    } else {
        let st = unicode_run(form, text.drop_last());
        unicode_step(form, st.0, st.1, text.last(), utf8_len(text.drop_last()) as usize)
    }
}

/// Per-character offsets expanded to per-byte offsets: each character's
/// offset is repeated once per byte of its UTF-8 encoding.
pub open spec fn expand_offsets(cs: Seq<char>, os: Seq<usize>) -> Seq<usize>
    decreases cs.len(),
{
    if cs.len() == 0 || os.len() == 0 {
        Seq::empty()
    } else {
        expand_offsets(cs.drop_last(), os.drop_last()) + repeat_offset(
            os.last() as int,
            char_len(cs.last()),
        )
    }
}

/// Buffer used while normalizing text: the work-in-progress normalized
/// characters, each with the byte offset in the original text it came from.
pub struct UnicodeBuf {
    normalized: Vec<char>,
    char_offsets: Vec<usize>,
}

impl UnicodeBuf {
    /// The buffered normalized characters.
    pub closed spec fn chars(&self) -> Seq<char> {
        self.normalized@
    }

    /// The buffered per-character source offsets.
    pub closed spec fn offsets(&self) -> Seq<usize> {
        self.char_offsets@
    }

    /// Every buffered character has exactly one offset.
    pub closed spec fn wf(&self) -> bool {
        self.char_offsets@.len() == self.normalized@.len()
    }

    /// An empty buffer with room for `len` characters.
    pub fn with_capacity(len: usize) -> (r: UnicodeBuf)
        ensures
            r.wf(),
            r.chars() == Seq::<char>::empty(),
            r.offsets() == Seq::<usize>::empty(),
    {
        UnicodeBuf {
            normalized: Vec::with_capacity(len),
            char_offsets: Vec::with_capacity(len),
        }
    }

    /// Add a character and its associated byte offset in the original text
    /// to the work-in-progress buffer.
    pub fn push(&mut self, ch: char, offset: usize)
        requires
            old(self).wf(),
        ensures
            final(self).wf(),
            final(self).chars() == old(self).chars().push(ch),
            final(self).offsets() == old(self).offsets().push(offset),
    {
        self.normalized.push(ch);
        self.char_offsets.push(offset);
    }

    /// Compose `ch` with the last character in the buffer if possible,
    /// otherwise add it the same as `push`.
    pub fn push_compose(&mut self, ch: char, offset: usize)
        requires
            old(self).wf(),
        ensures
            final(self).wf(),
            final(self).chars() == nfc_push(
                old(self).chars(),
                old(self).offsets(),
                ch,
                offset,
            ).0,
            final(self).offsets() == nfc_push(
                old(self).chars(),
                old(self).offsets(),
                ch,
                offset,
            ).1,
    {
        let prev_ch = self.normalized.pop();
        let prev_off = self.char_offsets.pop();
        match (prev_ch, prev_off) {
            (Some(pc), Some(po)) => {
                match compose_pair(pc, ch) {
                    Some(cc) => {
                        self.push(cc, po);
                    },
                    None => {
                        self.push(pc, po);
                        self.push(ch, offset);
                        proof {
                            assert(old(self).chars().drop_last().push(pc) =~= old(self).chars());
                            assert(old(self).offsets().drop_last().push(po) =~= old(
                                self,
                            ).offsets());
                        }
                    },
                }
            },
            _ => {
                self.push(ch, offset);
            },
        }
    }

    /// Consume the buffer, returning the normalized string and its offset
    /// mapping with the per-character offsets expanded to per-byte offsets.
    pub fn into_string_with_byte_offsets(self) -> (r: (String, Vec<usize>))
        requires
            self.wf(),
        ensures
            r.0@ == self.chars(),
            r.1@ == expand_offsets(self.chars(), self.offsets()),
    {
        let normalized = chars_to_string(&self.normalized);
        let ghost cs = self.normalized@;
        let ghost os = self.char_offsets@;
        let mut byte_offsets: Vec<usize> = Vec::new();
        let mut i: usize = 0;
        while i < self.normalized.len()
            invariant
                self.normalized@ == cs,
                self.char_offsets@ == os,
                os.len() == cs.len(),
                i <= cs.len(),
                byte_offsets@ == expand_offsets(cs.take(i as int), os.take(i as int)),
            decreases cs.len() - i,
        {
            let ch = self.normalized[i];
            let off = self.char_offsets[i];
            let n = char_utf8_len(ch);
            let ghost b0 = byte_offsets@;
            let mut b: usize = 0;
            while b < n
                invariant
                    b <= n,
                    n == char_len(ch),
                    off == os[i as int],
                    ch == cs[i as int],
                    i < cs.len(),
                    byte_offsets@ == b0 + repeat_offset(off as int, b as int),
                decreases n - b,
            {
                byte_offsets.push(off);
                b = b + 1;
                proof {
                    assert(b0 + repeat_offset(off as int, b - 1) + seq![off] =~= b0
                        + repeat_offset(off as int, b as int));
                }
            }
            i = i + 1;
            proof {
                assert(cs.take(i as int).drop_last() =~= cs.take(i - 1));
                assert(os.take(i as int).drop_last() =~= os.take(i - 1));
                assert(cs.take(i as int).last() == cs[i - 1]);
                assert(os.take(i as int).last() == os[i - 1]);
            }
        }
        proof {
            assert(cs.take(cs.len() as int) =~= cs);
            assert(os.take(os.len() as int) =~= os);
        }
        (normalized, byte_offsets)
    }
}

/// Normalize text into one of the standard Unicode normalization forms.
#[derive(Clone, Debug)]
pub enum Unicode {
    /// Canonical composition.
    Nfc,
    /// Canonical decomposition.
    Nfd,
    /// Compatibility decomposition, followed by canonical composition.
    Nfkc,
    /// Compatibility decomposition.
    Nfkd,
}

impl Unicode {
    /// The normalized text and offset mapping this form produces.
    pub open spec fn spec_normalize(self, text: Seq<char>) -> (Seq<char>, Seq<usize>) {
        let st = unicode_run(self, text);
        (st.0, expand_offsets(st.0, st.1))
    }

    /// Normalize `text` into the chosen form, returning the normalized
    /// string and, for each of its bytes, the byte offset in `text` of the
    /// input character it came from. Never fails.
    pub fn normalize(&self, text: &str) -> (r: Result<(String, Vec<usize>), NormalizeError>)
        ensures
            r matches Ok(p) && p.0@ == self.spec_normalize(text@).0 && p.1@
                == self.spec_normalize(text@).1,
    {
        let byte_len = str_byte_len(text);
        let chars = str_to_chars(text);
        let ghost s = chars@;
        let mut buf = UnicodeBuf::with_capacity(byte_len);
        let mut byte_off: usize = 0;
        let mut i: usize = 0;
        while i < chars.len()
            invariant
                chars@ == s,
                s == text@,
                byte_len == utf8_len(text@),
                i <= s.len(),
                byte_off == utf8_len(s.take(i as int)),
                buf.wf(),
                buf.chars() == unicode_run(*self, s.take(i as int)).0,
                buf.offsets() == unicode_run(*self, s.take(i as int)).1,
            decreases s.len() - i,
        {
            let ch = chars[i];
            let ghost cs0 = buf.chars();
            let ghost os0 = buf.offsets();
            match self {
                Unicode::Nfc => {
                    buf.push_compose(ch, byte_off);
                },
                Unicode::Nfd => {
                    let ds = decompose_canonical_chars(ch);
                    let ghost d = ds@;
                    let mut j: usize = 0;
                    while j < ds.len()
                        invariant
                            ds@ == d,
                            j <= d.len(),
                            buf.wf(),
                            buf.chars() == cs0 + d.take(j as int),
                            buf.offsets() == os0 + Seq::new(j as nat, |k: int| byte_off),
                        decreases d.len() - j,
                    {
                        buf.push(ds[j], byte_off);
                        j = j + 1;
                        proof {
                            assert(cs0 + d.take(j - 1) + seq![d[j - 1]] =~= cs0 + d.take(
                                j as int,
                            ));
                            assert(os0 + Seq::new((j - 1) as nat, |k: int| byte_off) + seq![
                                byte_off,
                            ] =~= os0 + Seq::new(j as nat, |k: int| byte_off));
                        }
                    }
                    proof {
                        assert(d.take(d.len() as int) =~= d);
                        assert(Seq::new(d.len(), |k: int| byte_off) =~= Seq::new(
                            canonical_decomposition(ch).len(),
                            |k: int| byte_off,
                        ));
                    }
                },
                Unicode::Nfkc => {
                    let ds = decompose_compatible_chars(ch);
                    let ghost d = ds@;
                    let mut j: usize = 0;
                    while j < ds.len()
                        invariant
                            ds@ == d,
                            j <= d.len(),
                            buf.wf(),
                            buf.chars() == nfc_push_all(cs0, os0, d.take(j as int), byte_off).0,
                            buf.offsets() == nfc_push_all(cs0, os0, d.take(j as int), byte_off).1,
                        decreases d.len() - j,
                    {
                        buf.push_compose(ds[j], byte_off);
                        j = j + 1;
                        proof {
                            assert(d.take(j as int).drop_last() =~= d.take(j - 1));
                            assert(d.take(j as int).last() == d[j - 1]);
                        }
                    }
                    proof {
                        assert(d.take(d.len() as int) =~= d);
                    }
                },
                Unicode::Nfkd => {
                    let ds = decompose_compatible_chars(ch);
                    let ghost d = ds@;
                    let mut j: usize = 0;
                    while j < ds.len()
                        invariant
                            ds@ == d,
                            j <= d.len(),
                            buf.wf(),
                            buf.chars() == cs0 + d.take(j as int),
                            buf.offsets() == os0 + Seq::new(j as nat, |k: int| byte_off),
                        decreases d.len() - j,
                    {
                        buf.push(ds[j], byte_off);
                        j = j + 1;
                        proof {
                            assert(cs0 + d.take(j - 1) + seq![d[j - 1]] =~= cs0 + d.take(
                                j as int,
                            ));
                            assert(os0 + Seq::new((j - 1) as nat, |k: int| byte_off) + seq![
                                byte_off,
                            ] =~= os0 + Seq::new(j as nat, |k: int| byte_off));
                        }
                    }
                    proof {
                        assert(d.take(d.len() as int) =~= d);
                        assert(Seq::new(d.len(), |k: int| byte_off) =~= Seq::new(
                            compatibility_decomposition(ch).len(),
                            |k: int| byte_off,
                        ));
                    }
                },
            }
            proof {
                assert(s.take(i + 1) =~= s.take(i as int).push(s[i as int]));
                lemma_utf8_len_snoc(s.take(i as int), s[i as int]);
                lemma_utf8_len_split(s, i + 1);
                lemma_utf8_len_ge_len(s.skip(i + 1));
                assert(s.take(i + 1).drop_last() =~= s.take(i as int));
                assert(s.take(i + 1).last() == s[i as int]);
            }
            let ch_len = char_utf8_len(ch);
            byte_off = byte_off + ch_len;
            i = i + 1;
        }
        proof {
            assert(s.take(s.len() as int) =~= s);
        }
        Ok(buf.into_string_with_byte_offsets())
    }
}

/// The pattern a compiled regex was built from.
pub uninterp spec fn regex_pattern(re: fancy_regex::Regex) -> Seq<char>;

/// The successive non-overlapping matches of a pattern in a text, leftmost
/// first, as byte ranges.
pub uninterp spec fn regex_match_ranges(pattern: Seq<char>, text: Seq<char>) -> Seq<(usize, usize)>;

/// Whether a pattern compiles as a regex.
pub uninterp spec fn regex_compiles(pattern: Seq<char>) -> bool;

/// Whether the engine's search of `text` for `pattern` runs to the end
/// without a runtime failure (such as a backtracking limit); like the
/// matches themselves, this is determined by the pattern and the text
/// alone.
pub uninterp spec fn regex_search_succeeds(pattern: Seq<char>, text: Seq<char>) -> bool;

#[verifier::external_type_specification]
#[verifier::external_body]
pub struct ExRegex(fancy_regex::Regex);

/// Relies on the derived `Clone` of `fancy_regex::Regex`: a clone is built
/// from the same pattern and matches exactly as the original does.
pub assume_specification[ <fancy_regex::Regex as core::clone::Clone>::clone ](
    re: &fancy_regex::Regex,
) -> (r: fancy_regex::Regex)
    ensures
        regex_pattern(r) == regex_pattern(*re),
;

/// Relies on `fancy_regex::Regex::new`: compiles `pattern` with the
/// default options; whether compilation succeeds, and what the compiled
/// value matches, are determined by the pattern alone.
#[verifier::external_body]
fn regex_new(pattern: &str) -> (r: Result<fancy_regex::Regex, String>)
    ensures
        r is Ok <==> regex_compiles(pattern@),
        r matches Ok(re) ==> regex_pattern(re) == pattern@,
{
    match fancy_regex::Regex::new(pattern) {
        Ok(re) => Ok(re),
        Err(e) => Err(format!("{}", e)),
    }
}

/// Relies on `fancy_regex::Regex::find_iter`: yields the successive
/// non-overlapping matches of the pattern in `text`, leftmost first, as
/// byte ranges lying on character boundaries, determined by the pattern and
/// the text alone. The iteration stops at the first engine error (for
/// example a backtracking limit), which is returned as its message; whether
/// that happens is again determined by the pattern and the text alone.
#[verifier::external_body]
fn regex_find_ranges(re: &fancy_regex::Regex, text: &str) -> (r: Result<
    Vec<(usize, usize)>,
    String,
>)
    ensures
        r is Ok <==> regex_search_succeeds(regex_pattern(*re), text@),
        r matches Ok(ms) ==> {
            &&& ms@ == regex_match_ranges(regex_pattern(*re), text@)
            &&& forall|k: int|
                0 <= k < ms@.len() ==> (#[trigger] ms@[k]).0 <= ms@[k].1 && ms@[k].1 <= utf8_len(
                    text@,
                ) && is_boundary(text@, ms@[k].0 as int) && is_boundary(text@, ms@[k].1 as int)
            &&& forall|k: int| 0 < k < ms@.len() ==> (#[trigger] ms@[k]).0 >= ms@[k - 1].1
        },
{
    let mut v = Vec::new();
    for m in re.find_iter(text) {
        match m {
            Ok(mm) => v.push((mm.start(), mm.end())),
            Err(e) => return Err(format!("{}", e)),
        }
    }
    Ok(v)
}

/// Copy characters, each with identity byte offsets, until the byte cursor
/// reaches `target`, a character boundary.
#[verifier::loop_isolation(false)]
fn advance_copy(
    text: &Vec<char>,
    ci: &mut usize,
    bo: &mut usize,
    target: usize,
    out: &mut Vec<char>,
    offs: &mut Vec<usize>,
)
    requires
        *old(ci) <= text@.len(),
        *old(bo) == utf8_len(text@.take(*old(ci) as int)),
        *old(bo) <= target,
        target <= utf8_len(text@),
        is_boundary(text@, target as int),
    ensures
        *final(ci) <= text@.len(),
        *final(bo) == target,
        *final(bo) == utf8_len(text@.take(*final(ci) as int)),
        final(out)@ == old(out)@ + text@.subrange(*old(ci) as int, *final(ci) as int),
        final(offs)@ == old(offs)@ + identity_offsets(*old(bo) as int, target as int),
{
    let ghost s = text@;
    let tn = text.len();
    let ghost kw = char_index_of(s, target as int);
    proof {
        assert(0 <= kw <= s.len() && utf8_len(s.take(kw)) == target);
        assert(s.subrange(*old(ci) as int, *old(ci) as int) =~= Seq::<char>::empty());
        assert(old(out)@ + Seq::<char>::empty() =~= old(out)@);
        assert(old(offs)@ + identity_offsets(*old(bo) as int, *old(bo) as int) =~= old(offs)@);
    }
    while *bo < target
        invariant
            tn == s.len(),
            *old(ci) <= *ci <= s.len(),
            *old(bo) <= *bo,
            *bo == utf8_len(s.take(*ci as int)),
            *bo <= target,
            out@ == old(out)@ + s.subrange(*old(ci) as int, *ci as int),
            offs@ == old(offs)@ + identity_offsets(*old(bo) as int, *bo as int),
        decreases target - *bo,
    {
        proof {
            if *ci == s.len() {
                assert(s.take(*ci as int) =~= s);
            }
            assert(*ci < s.len());
            if kw <= *ci {
                lemma_utf8_len_take_mono(s, kw, *ci as int);
            }
            assert(*ci < kw);
            lemma_utf8_len_take_mono(s, *ci + 1, kw);
            assert(s.take(*ci + 1) =~= s.take(*ci as int).push(s[*ci as int]));
            lemma_utf8_len_snoc(s.take(*ci as int), s[*ci as int]);
        }
        let ch = text[*ci];
        let cl = char_utf8_len(ch);
        out.push(ch);
        let ghost offs1 = offs@;
        let ghost bo1 = *bo;
        let mut b: usize = 0;
        while b < cl
            invariant
                b <= cl,
                cl == char_len(s[*ci as int]),
                bo1 + cl <= target,
                offs@ == offs1 + identity_offsets(bo1 as int, bo1 + b),
            decreases cl - b,
        {
            offs.push(*bo + b);
            b = b + 1;
            proof {
                assert(offs1 + identity_offsets(bo1 as int, bo1 + b - 1) + seq![
                    (bo1 + b - 1) as usize,
                ] =~= offs1 + identity_offsets(bo1 as int, bo1 + b));
            }
        }
        *bo = *bo + cl;
        *ci = *ci + 1;
        proof {
            assert(s.subrange(*old(ci) as int, *ci as int) =~= s.subrange(
                *old(ci) as int,
                *ci - 1,
            ).push(s[*ci - 1]));
            assert(out@ =~= old(out)@ + s.subrange(*old(ci) as int, *ci as int));
            assert(old(offs)@ + identity_offsets(*old(bo) as int, bo1 as int) + identity_offsets(
                bo1 as int,
                *bo as int,
            ) =~= old(offs)@ + identity_offsets(*old(bo) as int, *bo as int));
        }
    }
}

/// Move the byte cursor forward to `target`, a character boundary, without
/// copying anything.
#[verifier::loop_isolation(false)]
fn advance_skip(text: &Vec<char>, ci: &mut usize, bo: &mut usize, target: usize)
    requires
        *old(ci) <= text@.len(),
        *old(bo) == utf8_len(text@.take(*old(ci) as int)),
        *old(bo) <= target,
        target <= utf8_len(text@),
        is_boundary(text@, target as int),
    ensures
        *final(ci) <= text@.len(),
        *final(bo) == target,
        *final(bo) == utf8_len(text@.take(*final(ci) as int)),
{
    let ghost s = text@;
    let tn = text.len();
    let ghost kw = char_index_of(s, target as int);
    proof {
        assert(0 <= kw <= s.len() && utf8_len(s.take(kw)) == target);
    }
    while *bo < target
        invariant
            tn == s.len(),
            *ci <= s.len(),
            *bo == utf8_len(s.take(*ci as int)),
            *bo <= target,
        decreases target - *bo,
    {
        proof {
            if *ci == s.len() {
                assert(s.take(*ci as int) =~= s);
            }
            assert(*ci < s.len());
            if kw <= *ci {
                lemma_utf8_len_take_mono(s, kw, *ci as int);
            }
            assert(*ci < kw);
            lemma_utf8_len_take_mono(s, *ci + 1, kw);
            assert(s.take(*ci + 1) =~= s.take(*ci as int).push(s[*ci as int]));
            lemma_utf8_len_snoc(s.take(*ci as int), s[*ci as int]);
        }
        let ch = text[*ci];
        let cl = char_utf8_len(ch);
        *bo = *bo + cl;
        *ci = *ci + 1;
    }
}

/// Byte ranges that can drive a replacement: ordered, non-overlapping,
/// within the text and on character boundaries.
pub open spec fn valid_ranges(ms: Seq<(usize, usize)>, text: Seq<char>) -> bool {
    (forall|k: int|
        0 <= k < ms.len() ==> (#[trigger] ms[k]).0 <= ms[k].1 && ms[k].1 <= utf8_len(text)
            && is_boundary(text, ms[k].0 as int) && is_boundary(text, ms[k].1 as int)) && (
    forall|k: int| 0 < k < ms.len() ==> (#[trigger] ms[k]).0 >= ms[k - 1].1)
}

/// The state after the first `k` replacements: output characters, output
/// byte offsets, and the byte position where the last match ended.
pub open spec fn splice_prefix(
    text: Seq<char>,
    ms: Seq<(usize, usize)>,
    content: Seq<char>,
    k: int,
) -> (Seq<char>, Seq<usize>, int)
    decreases k,
{
    if k <= 0 {
        (Seq::empty(), Seq::empty(), 0)
    } else {
        let st = splice_prefix(text, ms, content, k - 1);
        let start = ms[k - 1].0 as int;
        let end = ms[k - 1].1 as int;
        (
            st.0 + text.subrange(char_index_of(text, st.2), char_index_of(text, start)) + content,
            st.1 + identity_offsets(st.2, start) + repeat_offset(start, utf8_len(content)),
            end,
        )
    }
}

/// Replacement of every match by `content`: replacement bytes map to the
/// byte offset where their match began; text between and after matches is
/// copied with identity offsets.
pub open spec fn splice(text: Seq<char>, ms: Seq<(usize, usize)>, content: Seq<char>) -> (Seq<
    char,
>, Seq<usize>) {
    let st = splice_prefix(text, ms, content, ms.len() as int);
    (st.0 + text.skip(char_index_of(text, st.2)), st.1 + identity_offsets(st.2, utf8_len(text)))
}

/// Build the replaced text and its offset mapping from the match byte
/// ranges the search produced.
#[verifier::loop_isolation(false)]
pub fn apply_replacements(
    text: &Vec<char>,
    matches: &Vec<(usize, usize)>,
    content: &Vec<char>,
    total_bytes: usize,
) -> (r: (Vec<char>, Vec<usize>))
    requires
        valid_ranges(matches@, text@),
        total_bytes == utf8_len(text@),
    ensures
        r.0@ == splice(text@, matches@, content@).0,
        r.1@ == splice(text@, matches@, content@).1,
{
    let ghost s = text@;
    let ghost msv = matches@;
    let ghost cv = content@;
    let mut out: Vec<char> = Vec::new();
    let mut offs: Vec<usize> = Vec::new();
    let mut ci: usize = 0;
    let mut bo: usize = 0;
    let mut mi: usize = 0;
    proof {
        assert(s.take(0) =~= Seq::<char>::empty());
    }
    while mi < matches.len()
        invariant
            mi <= msv.len(),
            ci <= s.len(),
            bo == utf8_len(s.take(ci as int)),
            bo <= utf8_len(s),
            bo == splice_prefix(s, msv, cv, mi as int).2 || (mi == 0 && bo == 0),
            out@ == splice_prefix(s, msv, cv, mi as int).0,
            offs@ == splice_prefix(s, msv, cv, mi as int).1,
        decreases msv.len() - mi,
    {
        let pair = matches[mi];
        let start = pair.0;
        let end = pair.1;
        proof {
            assert(msv[mi as int].0 == start && msv[mi as int].1 == end);
            if mi > 0 {
                assert(msv[mi as int].0 >= msv[mi as int - 1].1);
            }
            assert(bo <= start);
            lemma_char_index_of(s, bo as int, ci as int);
        }
        let ghost ci0 = ci;
        let ghost bo0 = bo;
        let ghost out0 = out@;
        let ghost offs0 = offs@;
        advance_copy(text, &mut ci, &mut bo, start, &mut out, &mut offs);
        proof {
            lemma_char_index_of(s, start as int, ci as int);
        }
        out.extend_from_slice(content.as_slice());
        let ghost offs1 = offs@;
        let mut j: usize = 0;
        while j < content.len()
            invariant
                j <= cv.len(),
                offs@ == offs1 + repeat_offset(start as int, utf8_len(cv.take(j as int))),
            decreases cv.len() - j,
        {
            let cl = char_utf8_len(content[j]);
            let ghost offs2 = offs@;
            let mut b: usize = 0;
            while b < cl
                invariant
                    b <= cl,
                    cl == char_len(cv[j as int]),
                    offs@ == offs2 + repeat_offset(start as int, b as int),
                decreases cl - b,
            {
                offs.push(start);
                b = b + 1;
                proof {
                    assert(offs2 + repeat_offset(start as int, b - 1) + seq![start] =~= offs2
                        + repeat_offset(start as int, b as int));
                }
            }
            j = j + 1;
            proof {
                assert(cv.take(j as int) =~= cv.take(j - 1).push(cv[j - 1]));
                lemma_utf8_len_snoc(cv.take(j - 1), cv[j - 1]);
                lemma_utf8_len_ge_len(cv.take(j - 1));
                assert(offs1 + repeat_offset(start as int, utf8_len(cv.take(j - 1)))
                    + repeat_offset(start as int, char_len(cv[j - 1])) =~= offs1 + repeat_offset(
                    start as int,
                    utf8_len(cv.take(j as int)),
                ));
            }
        }
        proof {
            assert(cv.take(cv.len() as int) =~= cv);
        }
        advance_skip(text, &mut ci, &mut bo, end);
        mi = mi + 1;
        proof {
            let st = splice_prefix(s, msv, cv, mi - 1);
            assert(st.2 == bo0);
            assert(char_index_of(s, st.2) == ci0);
            assert(char_index_of(s, start as int) == char_index_of(s, msv[mi - 1].0 as int));
            assert(out@ =~= st.0 + s.subrange(ci0 as int, char_index_of(s, msv[mi - 1].0 as int))
                + cv);
            assert(offs@ =~= st.1 + identity_offsets(st.2, msv[mi - 1].0 as int) + repeat_offset(
                msv[mi - 1].0 as int,
                utf8_len(cv),
            ));
        }
    }
    proof {
        assert(is_boundary(s, utf8_len(s))) by {
            assert(s.take(s.len() as int) =~= s);
        }
        lemma_char_index_of(s, bo as int, ci as int);
    }
    let ghost ci1 = ci;
    let ghost bo1 = bo;
    advance_copy(text, &mut ci, &mut bo, total_bytes, &mut out, &mut offs);
    proof {
        if ci < s.len() {
            lemma_utf8_len_take_mono(s, ci as int, s.len() as int);
            assert(s.take(s.len() as int) =~= s);
        }
        assert(ci == s.len());
        let st = splice_prefix(s, msv, cv, msv.len() as int);
        assert(st.2 == bo1);
        assert(char_index_of(s, st.2) == ci1);
        assert(s.subrange(ci1 as int, ci as int) =~= s.skip(ci1 as int));
    }
    (out, offs)
}

/// Replaces occurrences of a pattern with a given string.
#[derive(Clone, Debug)]
pub struct Replace {
    /// The compiled pattern.
    pub regex: fancy_regex::Regex,
    /// The replacement text.
    pub content: String,
}

impl Replace {
    /// Replaces occurrences of `pattern` with `content`.
    ///
    /// `pattern` is a regex pattern; it succeeds exactly when the pattern
    /// compiles, and an invalid pattern is rejected with the compile error.
    pub fn new(pattern: &str, content: String) -> (r: Result<Replace, NormalizeError>)
        ensures
            r is Ok <==> regex_compiles(pattern@),
            r matches Ok(rep) ==> regex_pattern(rep.regex) == pattern@ && rep.content == content,
            r is Err ==> r matches Err(NormalizeError::RegexError(_)),
    {
        match regex_new(pattern) {
            Ok(re) => Ok(Replace { regex: re, content }),
            Err(msg) => Err(NormalizeError::RegexError(msg)),
        }
    }

    /// The normalized text and offset mapping, given that the search
    /// succeeds.
    pub open spec fn spec_normalize(self, text: Seq<char>) -> (Seq<char>, Seq<usize>) {
        splice(text, regex_match_ranges(regex_pattern(self.regex), text), self.content@)
    }

    /// Replace every match of the pattern in `text` by the replacement,
    /// mapping each replacement byte to the byte offset where its match
    /// began and every copied byte to its own offset. Fails exactly when
    /// the regex engine fails during the search, with the engine's message.
    pub fn normalize(&self, text: &str) -> (r: Result<(String, Vec<usize>), NormalizeError>)
        ensures
            r is Ok <==> regex_search_succeeds(regex_pattern(self.regex), text@),
            r matches Ok(p) ==> p.0@ == self.spec_normalize(text@).0 && p.1@
                == self.spec_normalize(text@).1,
            r is Err ==> r matches Err(NormalizeError::RegexError(_)),
    {
        let ms = match regex_find_ranges(&self.regex, text) {
            Ok(ms) => ms,
            Err(msg) => {
                return Err(NormalizeError::RegexError(msg));
            },
        };
        let chars = str_to_chars(text);
        let content_chars = str_to_chars(self.content.as_str());
        let total = str_byte_len(text);
        let (out, offs) = apply_replacements(&chars, &ms, &content_chars, total);
        Ok((chars_to_string(&out), offs))
    }
}

/// Any one of the concrete normalizers, so that a sequence can hold a
/// mixed pipeline of them.
#[derive(Debug)]
pub enum AnyNormalizer {
    /// BERT-style lowercasing and accent stripping.
    Bert(Bert),
    /// Pattern replacement.
    Replace(Replace),
    /// Unicode normalization forms.
    Unicode(Unicode),
}

impl AnyNormalizer {
    /// The normalized text and offset mapping this normalizer produces on
    /// success.
    pub open spec fn spec_normalize(self, text: Seq<char>) -> (Seq<char>, Seq<usize>) {
        match self {
            AnyNormalizer::Bert(b) => b.spec_normalize(text),
            AnyNormalizer::Replace(r) => r.spec_normalize(text),
            AnyNormalizer::Unicode(u) => u.spec_normalize(text),
        }
    }

    /// Whether this normalizer can never fail.
    pub open spec fn spec_infallible(self) -> bool {
        !(self matches AnyNormalizer::Replace(_))
    }

    /// Whether this normalizer succeeds on `text`: always, except for a
    /// replacement whose search fails at runtime.
    pub open spec fn spec_succeeds(self, text: Seq<char>) -> bool {
        match self {
            AnyNormalizer::Bert(_) => true,
            AnyNormalizer::Replace(r) => regex_search_succeeds(regex_pattern(r.regex), text),
            AnyNormalizer::Unicode(_) => true,
        }
    }

    /// Apply this normalizer to `text`.
    pub fn normalize(&self, text: &str) -> (r: Result<(String, Vec<usize>), NormalizeError>)
        ensures
            r is Ok <==> self.spec_succeeds(text@),
            r matches Ok(p) ==> p.0@ == self.spec_normalize(text@).0 && p.1@
                == self.spec_normalize(text@).1,
            r is Err ==> r matches Err(NormalizeError::RegexError(_)),
            self.spec_infallible() ==> r is Ok,
    {
        match self {
            AnyNormalizer::Bert(b) => b.normalize(text),
            AnyNormalizer::Replace(rep) => rep.normalize(text),
            AnyNormalizer::Unicode(u) => u.normalize(text),
        }
    }
}

/// Running a pipeline: each member normalizes the previous member's output,
/// and its offsets are composed through the accumulated mapping.
pub open spec fn seq_run(members: Seq<AnyNormalizer>, text: Seq<char>, offs: Seq<usize>) -> (Seq<
    char,
>, Seq<usize>)
    decreases members.len(),
{
    if members.len() == 0 {
        (text, offs)
    } else {
        let p = members[0].spec_normalize(text);
        seq_run(members.drop_first(), p.0, Seq::new(p.1.len(), |k: int| offs[p.1[k] as int]))
    }
}

/// Whether every member of the pipeline succeeds, each on the previous
/// member's output.
pub open spec fn seq_succeeds(members: Seq<AnyNormalizer>, text: Seq<char>) -> bool
    decreases members.len(),
{
    if members.len() == 0 {
        true
    } else {
        members[0].spec_succeeds(text) && seq_succeeds(
            members.drop_first(),
            members[0].spec_normalize(text).0,
        )
    }
}

/// Whether every offset a member reports indexes into the accumulated
/// mapping, at every stage of the pipeline.
pub open spec fn seq_remap_ok(
    members: Seq<AnyNormalizer>,
    text: Seq<char>,
    offs: Seq<usize>,
) -> bool
    decreases members.len(),
{
    if members.len() == 0 {
        true
    } else {
        let p = members[0].spec_normalize(text);
        (forall|k: int| 0 <= k < p.1.len() ==> (p.1[k] as int) < offs.len()) && seq_remap_ok(
            members.drop_first(),
            p.0,
            Seq::new(p.1.len(), |k: int| offs[p.1[k] as int]),
        )
    }
}

/// Run a series of normalizers in sequence.
#[derive(Debug)]
pub struct Sequence {
    /// The members, applied in order.
    pub normalizers: Vec<AnyNormalizer>,
}

impl Sequence {
    /// A pipeline of the given normalizers, applied in order.
    pub fn from_vec(normalizers: Vec<AnyNormalizer>) -> (r: Sequence)
        ensures
            r.normalizers@ == normalizers@,
    {
        Sequence { normalizers }
    }

    /// Apply the members in order. Each member normalizes the previous
    /// output, and its offsets are composed through the accumulated mapping
    /// so that the result maps bytes of the final text to byte offsets of
    /// the original. Succeeds exactly when every stage succeeds and every
    /// stage's offsets compose; stops at the first failure, handing back a
    /// failing member's own error, or the out-of-range error where a member
    /// reports an offset beyond the byte length of its input.
    #[verifier::loop_isolation(false)]
    pub fn normalize(&self, text: &str) -> (r: Result<(String, Vec<usize>), NormalizeError>)
        ensures
            r is Ok <==> seq_succeeds(self.normalizers@, text@) && seq_remap_ok(
                self.normalizers@,
                text@,
                identity_offsets(0, utf8_len(text@)),
            ),
            r matches Ok(p) ==> {
                &&& p.0@ == seq_run(
                    self.normalizers@,
                    text@,
                    identity_offsets(0, utf8_len(text@)),
                ).0
                &&& p.1@ == seq_run(
                    self.normalizers@,
                    text@,
                    identity_offsets(0, utf8_len(text@)),
                ).1
            },
            r is Err && seq_remap_ok(self.normalizers@, text@, identity_offsets(0, utf8_len(text@)))
                ==> r matches Err(NormalizeError::RegexError(_)),
            r is Err && seq_succeeds(self.normalizers@, text@) ==> r matches Err(
                NormalizeError::OffsetOutOfRange,
            ),
    {
        let ghost m0 = self.normalizers@;
        let ghost id0 = identity_offsets(0, utf8_len(text@));
        let byte_len = str_byte_len(text);
        let mut normalized = text.to_owned();
        let mut offsets: Vec<usize> = Vec::new();
        let mut k: usize = 0;
        while k < byte_len
            invariant
                k <= byte_len,
                offsets@ == identity_offsets(0, k as int),
            decreases byte_len - k,
        {
            offsets.push(k);
            k = k + 1;
            proof {
                assert(identity_offsets(0, k - 1).push((k - 1) as usize) =~= identity_offsets(
                    0,
                    k as int,
                ));
            }
        }
        proof {
            assert(m0.skip(0) =~= m0);
        }
        let mut t: usize = 0;
        while t < self.normalizers.len()
            invariant
                t <= m0.len(),
                seq_run(m0, text@, id0) == seq_run(m0.skip(t as int), normalized@, offsets@),
                seq_remap_ok(m0, text@, id0) <==> seq_remap_ok(
                    m0.skip(t as int),
                    normalized@,
                    offsets@,
                ),
                seq_succeeds(m0, text@) <==> seq_succeeds(m0.skip(t as int), normalized@),
            decreases m0.len() - t,
        {
            let member = &self.normalizers[t];
            let ghost cur = normalized@;
            let ghost curoffs = offsets@;
            let (next_normalized, next_offsets) = match member.normalize(normalized.as_str()) {
                Ok(p) => p,
                Err(e) => {
                    proof {
                        assert(m0.skip(t as int)[0] == m0[t as int]);
                        assert(!seq_succeeds(m0.skip(t as int), cur));
                    }
                    return Err(e);
                },
            };
            let ghost p = m0[t as int].spec_normalize(cur);
            proof {
                assert(m0.skip(t as int)[0] == m0[t as int]);
                assert(m0.skip(t as int).drop_first() =~= m0.skip(t + 1));
            }
            let mut new_offsets: Vec<usize> = Vec::new();
            let mut j: usize = 0;
            while j < next_offsets.len()
                invariant
                    j <= next_offsets@.len(),
                    next_offsets@ == p.1,
                    offsets@ == curoffs,
                    forall|q: int| 0 <= q < j ==> (p.1[q] as int) < curoffs.len(),
                    new_offsets@ == Seq::new(j as nat, |q: int| curoffs[p.1[q] as int]),
                decreases next_offsets@.len() - j,
            {
                let off = next_offsets[j];
                if off < offsets.len() {
                    new_offsets.push(offsets[off]);
                    j = j + 1;
                    proof {
                        assert(new_offsets@ =~= Seq::new(j as nat, |q: int| curoffs[p.1[q] as int]));
                    }
                } else {
                    proof {
                        assert(!seq_remap_ok(m0.skip(t as int), cur, curoffs));
                    }
                    return Err(NormalizeError::OffsetOutOfRange);
                }
            }
            normalized = next_normalized;
            offsets = new_offsets;
            t = t + 1;
        }
        proof {
            assert(m0.skip(m0.len() as int) =~= Seq::<AnyNormalizer>::empty());
        }
        Ok((normalized, offsets))
    }
}

/// A normalizer applies normalization such as Unicode normalization and
/// lower-casing to strings.
///
/// In addition to the normalized text, the result carries a mapping from
/// byte offsets in the normalized string back to byte offsets in the
/// original string, so downstream consumers can map positions in normalized
/// text back to the input.
pub trait Normalizer {
    /// The normalized text and offset mapping produced on success.
    spec fn spec_result(&self, text: Seq<char>) -> (Seq<char>, Seq<usize>);

    /// Apply normalization to a string.
    ///
    /// Returns `(normalized_string, offset_map)` where `offset_map` maps
    /// byte offsets in the normalized string to corresponding offsets in
    /// the original string.
    fn normalize(&self, text: &str) -> (r: Result<(String, Vec<usize>), NormalizeError>)
        ensures
            r matches Ok(p) ==> p.0@ == self.spec_result(text@).0 && p.1@ == self.spec_result(
                text@,
            ).1,
    ;
}

impl Normalizer for Bert {
    open spec fn spec_result(&self, text: Seq<char>) -> (Seq<char>, Seq<usize>) {
        self.spec_normalize(text)
    }

    fn normalize(&self, text: &str) -> (r: Result<(String, Vec<usize>), NormalizeError>) {
        Bert::normalize(self, text)
    }
}

impl Normalizer for Replace {
    open spec fn spec_result(&self, text: Seq<char>) -> (Seq<char>, Seq<usize>) {
        self.spec_normalize(text)
    }

    fn normalize(&self, text: &str) -> (r: Result<(String, Vec<usize>), NormalizeError>) {
        Replace::normalize(self, text)
    }
}

impl Normalizer for Unicode {
    open spec fn spec_result(&self, text: Seq<char>) -> (Seq<char>, Seq<usize>) {
        self.spec_normalize(text)
    }

    fn normalize(&self, text: &str) -> (r: Result<(String, Vec<usize>), NormalizeError>) {
        Unicode::normalize(self, text)
    }
}

impl Normalizer for AnyNormalizer {
    open spec fn spec_result(&self, text: Seq<char>) -> (Seq<char>, Seq<usize>) {
        self.spec_normalize(text)
    }

    fn normalize(&self, text: &str) -> (r: Result<(String, Vec<usize>), NormalizeError>) {
        AnyNormalizer::normalize(self, text)
    }
}

impl Normalizer for Sequence {
    open spec fn spec_result(&self, text: Seq<char>) -> (Seq<char>, Seq<usize>) {
        seq_run(self.normalizers@, text, identity_offsets(0, utf8_len(text)))
    }

    fn normalize(&self, text: &str) -> (r: Result<(String, Vec<usize>), NormalizeError>) {
        Sequence::normalize(self, text)
    }
}

/// The offset mapping is total: the BERT normalizer reports exactly one
/// originating offset for every byte of its output.
pub proof fn lemma_bert_mapping_total(b: Bert, text: Seq<char>)
    ensures
        b.spec_normalize(text).1.len() == utf8_len(b.spec_normalize(text).0),
{
    if b.spec_is_noop() {
        lemma_utf8_len_ge_len(text);
    } else {
        lemma_bert_offsets_len(b.lowercase, b.strip_accents, text);
    }
}

/// Length of the BERT offset mapping: one entry per output byte.
proof fn lemma_bert_offsets_len(lowercase: bool, strip: bool, s: Seq<char>)
    ensures
        bert_offsets(lowercase, strip, s).len() == utf8_len(bert_chars(lowercase, strip, s)),
        utf8_len(bert_chars(lowercase, strip, s)) >= 0,
    decreases s.len(),
{
    if s.len() == 0 {
    } else {
        lemma_bert_offsets_len(lowercase, strip, s.drop_last());
        lemma_utf8_len_concat(
            bert_chars(lowercase, strip, s.drop_last()),
            bert_char(lowercase, strip, s.last()),
        );
        lemma_utf8_len_ge_len(bert_char(lowercase, strip, s.last()));
    }
}

/// At every stage of a normalization run the buffer holds exactly one
/// source offset per character.
proof fn lemma_unicode_run_even(form: Unicode, text: Seq<char>)
    ensures
        unicode_run(form, text).0.len() == unicode_run(form, text).1.len(),
    decreases text.len(),
{
    if text.len() > 0 {
        lemma_unicode_run_even(form, text.drop_last());
        let st = unicode_run(form, text.drop_last());
        let off = (utf8_len(text.drop_last())) as usize;
        match form {
            Unicode::Nfc => {},
            Unicode::Nfd => {},
            Unicode::Nfkc => {
                lemma_nfc_push_all_even(st.0, st.1, compatibility_decomposition(text.last()), off);
            },
            Unicode::Nfkd => {},
        }
    }
}

/// Pushing-with-composition keeps one offset per character.
proof fn lemma_nfc_push_all_even(cs: Seq<char>, os: Seq<usize>, ds: Seq<char>, off: usize)
    requires
        cs.len() == os.len(),
    ensures
        nfc_push_all(cs, os, ds, off).0.len() == nfc_push_all(cs, os, ds, off).1.len(),
    decreases ds.len(),
{
    if ds.len() > 0 {
        lemma_nfc_push_all_even(cs, os, ds.drop_last(), off);
    }
}

/// The per-byte expansion of a buffer yields one entry per output byte.
proof fn lemma_expand_offsets_len(cs: Seq<char>, os: Seq<usize>)
    requires
        cs.len() == os.len(),
    ensures
        expand_offsets(cs, os).len() == utf8_len(cs),
    decreases cs.len(),
{
    if cs.len() > 0 {
        lemma_expand_offsets_len(cs.drop_last(), os.drop_last());
        assert(cs.drop_last().push(cs.last()) =~= cs);
        lemma_utf8_len_snoc(cs.drop_last(), cs.last());
    }
}

/// The offset mapping is total: a Unicode normalization form reports
/// exactly one originating offset for every byte of its output.
pub proof fn lemma_unicode_mapping_total(u: Unicode, text: Seq<char>)
    ensures
        u.spec_normalize(text).1.len() == utf8_len(u.spec_normalize(text).0),
{
    lemma_unicode_run_even(u, text);
    let st = unicode_run(u, text);
    lemma_expand_offsets_len(st.0, st.1);
}

/// Between two boundary byte positions lies a character span of exactly
/// that many bytes.
proof fn lemma_subrange_byte_len(s: Seq<char>, a: int, b: int)
    requires
        0 <= a <= b <= utf8_len(s),
        is_boundary(s, a),
        is_boundary(s, b),
    ensures
        0 <= char_index_of(s, a) <= char_index_of(s, b) <= s.len(),
        utf8_len(s.subrange(char_index_of(s, a), char_index_of(s, b))) == b - a,
{
    let ia = char_index_of(s, a);
    let ib = char_index_of(s, b);
    assert(0 <= ia <= s.len() && utf8_len(s.take(ia)) == a);
    assert(0 <= ib <= s.len() && utf8_len(s.take(ib)) == b);
    if ib < ia {
        lemma_utf8_len_take_mono(s, ib, ia);
    }
    assert(s.subrange(ia, ib) =~= s.take(ib).skip(ia));
    lemma_utf8_len_split(s.take(ib), ia);
    assert(s.take(ib).take(ia) =~= s.take(ia));
}

/// After any number of replacements the built mapping has one entry per
/// built byte, and the cursor sits on a boundary before the next match.
proof fn lemma_splice_prefix_len(
    text: Seq<char>,
    ms: Seq<(usize, usize)>,
    content: Seq<char>,
    k: int,
)
    requires
        valid_ranges(ms, text),
        0 <= k <= ms.len(),
    ensures
        splice_prefix(text, ms, content, k).1.len() == utf8_len(splice_prefix(text, ms, content, k).0),
        0 <= splice_prefix(text, ms, content, k).2 <= utf8_len(text),
        is_boundary(text, splice_prefix(text, ms, content, k).2),
        k < ms.len() ==> splice_prefix(text, ms, content, k).2 <= ms[k].0,
    decreases k,
{
    lemma_utf8_len_ge_len(text);
    if k == 0 {
        assert(text.take(0) =~= Seq::<char>::empty());
        assert(utf8_len(text.take(0)) == 0);
    } else {
        lemma_splice_prefix_len(text, ms, content, k - 1);
        let st = splice_prefix(text, ms, content, k - 1);
        let start = ms[k - 1].0 as int;
        let end = ms[k - 1].1 as int;
        assert(st.2 <= start);
        lemma_subrange_byte_len(text, st.2, start);
        lemma_utf8_len_concat(
            st.0,
            text.subrange(char_index_of(text, st.2), char_index_of(text, start)),
        );
        lemma_utf8_len_concat(
            st.0 + text.subrange(char_index_of(text, st.2), char_index_of(text, start)),
            content,
        );
        lemma_utf8_len_ge_len(content);
        if k < ms.len() {
            assert(ms[k as int].0 >= ms[k - 1].1);
        }
    }
}

/// The offset mapping of a replacement is total: one originating offset for
/// every byte of the spliced output, whenever the match ranges are ordered,
/// in bounds and on character boundaries — as the ranges a search returns
/// always are.
pub proof fn lemma_splice_mapping_total(
    text: Seq<char>,
    ms: Seq<(usize, usize)>,
    content: Seq<char>,
)
    requires
        valid_ranges(ms, text),
    ensures
        splice(text, ms, content).1.len() == utf8_len(splice(text, ms, content).0),
{
    lemma_splice_prefix_len(text, ms, content, ms.len() as int);
    let st = splice_prefix(text, ms, content, ms.len() as int);
    assert(is_boundary(text, utf8_len(text))) by {
        assert(text.take(text.len() as int) =~= text);
    }
    lemma_subrange_byte_len(text, st.2, utf8_len(text));
    let ci2 = char_index_of(text, st.2);
    assert(char_index_of(text, utf8_len(text)) == text.len()) by {
        assert(text.take(text.len() as int) =~= text);
        lemma_char_index_of(text, utf8_len(text), text.len() as int);
    }
    assert(text.subrange(ci2, text.len() as int) =~= text.skip(ci2));
    lemma_utf8_len_concat(st.0, text.skip(ci2));
}

/// Every offset the BERT normalizer reports is the starting byte offset of
/// an input character, so it lies strictly inside the input.
pub proof fn lemma_bert_offsets_in_input(b: Bert, text: Seq<char>)
    ensures
        forall|k: int|
            0 <= k < b.spec_normalize(text).1.len() ==> (b.spec_normalize(text).1[k] as int)
                < utf8_len(text),
{
    if b.spec_is_noop() {
        lemma_utf8_len_ge_len(text);
        assert forall|k: int|
            0 <= k < b.spec_normalize(text).1.len() implies (b.spec_normalize(text).1[k] as int)
            < utf8_len(text) by {
            assert(b.spec_normalize(text).1[k] == (k as usize));
        }
    } else {
        lemma_bert_offsets_bound(b.lowercase, b.strip_accents, text);
    }
}

/// Offsets of the BERT mapping are bounded by the input's byte length.
proof fn lemma_bert_offsets_bound(lowercase: bool, strip: bool, s: Seq<char>)
    ensures
        forall|k: int|
            0 <= k < bert_offsets(lowercase, strip, s).len() ==> (bert_offsets(
                lowercase,
                strip,
                s,
            )[k] as int) < utf8_len(s),
    decreases s.len(),
{
    if s.len() > 0 {
        assert(s.drop_last().push(s.last()) =~= s);
        lemma_utf8_len_snoc(s.drop_last(), s.last());
        lemma_utf8_len_ge_len(s.drop_last());
        lemma_bert_offsets_bound(lowercase, strip, s.drop_last());
        let pre = bert_offsets(lowercase, strip, s.drop_last());
        let blk = repeat_offset(
            utf8_len(s.drop_last()),
            utf8_len(bert_char(lowercase, strip, s.last())),
        );
        assert forall|k: int|
            0 <= k < bert_offsets(lowercase, strip, s).len() implies (bert_offsets(
            lowercase,
            strip,
            s,
        )[k] as int) < utf8_len(s) by {
            if k < pre.len() {
                assert(bert_offsets(lowercase, strip, s)[k] == pre[k]);
            } else {
                assert(bert_offsets(lowercase, strip, s)[k] == blk[k - pre.len()]);
            }
        }
    }
}

/// Every offset a replacement reports lies within the input: strictly for
/// copied bytes, and at most the byte length for replacement bytes (an
/// empty match at the very end inserts at the input's byte length).
pub proof fn lemma_splice_offsets_bounded(
    text: Seq<char>,
    ms: Seq<(usize, usize)>,
    content: Seq<char>,
)
    requires
        valid_ranges(ms, text),
        utf8_len(text) <= usize::MAX,
    ensures
        forall|k: int|
            0 <= k < splice(text, ms, content).1.len() ==> (splice(text, ms, content).1[k] as int)
                <= utf8_len(text),
{
    lemma_splice_prefix_offsets_bounded(text, ms, content, ms.len() as int);
    let st = splice_prefix(text, ms, content, ms.len() as int);
    let tail = identity_offsets(st.2, utf8_len(text));
    assert forall|k: int|
        0 <= k < splice(text, ms, content).1.len() implies (splice(text, ms, content).1[k] as int)
        <= utf8_len(text) by {
        if k < st.1.len() {
            assert(splice(text, ms, content).1[k] == st.1[k]);
        } else {
            assert(splice(text, ms, content).1[k] == tail[k - st.1.len()]);
        }
    }
}

/// Offsets built by the first `k` replacements are bounded by the input's
/// byte length.
proof fn lemma_splice_prefix_offsets_bounded(
    text: Seq<char>,
    ms: Seq<(usize, usize)>,
    content: Seq<char>,
    k: int,
)
    requires
        valid_ranges(ms, text),
        utf8_len(text) <= usize::MAX,
        0 <= k <= ms.len(),
    ensures
        forall|q: int|
            0 <= q < splice_prefix(text, ms, content, k).1.len() ==> (splice_prefix(
                text,
                ms,
                content,
                k,
            ).1[q] as int) <= utf8_len(text),
    decreases k,
{
    if k > 0 {
        lemma_splice_prefix_offsets_bounded(text, ms, content, k - 1);
        lemma_splice_prefix_len(text, ms, content, k - 1);
        let st = splice_prefix(text, ms, content, k - 1);
        let start = ms[k - 1].0 as int;
        let ids = identity_offsets(st.2, start);
        let rep = repeat_offset(start, utf8_len(content));
        assert forall|q: int|
            0 <= q < splice_prefix(text, ms, content, k).1.len() implies (splice_prefix(
            text,
            ms,
            content,
            k,
        ).1[q] as int) <= utf8_len(text) by {
            if q < st.1.len() {
                assert(splice_prefix(text, ms, content, k).1[q] == st.1[q]);
            } else if q < st.1.len() + ids.len() {
                assert(splice_prefix(text, ms, content, k).1[q] == ids[q - st.1.len()]);
            } else {
                assert(splice_prefix(text, ms, content, k).1[q] == rep[q - st.1.len()
                    - ids.len()]);
            }
        }
    }
}

/// Pushing-with-composition only ever records offsets it was handed.
proof fn lemma_nfc_push_all_bound(
    cs: Seq<char>,
    os: Seq<usize>,
    ds: Seq<char>,
    off: usize,
    bound: int,
)
    requires
        forall|q: int| 0 <= q < os.len() ==> (os[q] as int) < bound,
        (off as int) < bound,
    ensures
        forall|q: int|
            0 <= q < nfc_push_all(cs, os, ds, off).1.len() ==> (nfc_push_all(
                cs,
                os,
                ds,
                off,
            ).1[q] as int) < bound,
    decreases ds.len(),
{
    if ds.len() > 0 {
        lemma_nfc_push_all_bound(cs, os, ds.drop_last(), off, bound);
        let st = nfc_push_all(cs, os, ds.drop_last(), off);
        let res = nfc_push_all(cs, os, ds, off);
        assert forall|q: int| 0 <= q < res.1.len() implies (res.1[q] as int) < bound by {
            if q < st.1.len() {
                assert(res.1[q] == st.1[q]);
            } else {
                assert(res.1[q] == off);
            }
        }
    }
}

/// Every offset the buffer holds after a normalization run is the starting
/// byte offset of an input character.
proof fn lemma_unicode_run_bound(form: Unicode, text: Seq<char>)
    ensures
        forall|q: int|
            0 <= q < unicode_run(form, text).1.len() ==> (unicode_run(form, text).1[q] as int)
                < utf8_len(text),
    decreases text.len(),
{
    if text.len() > 0 {
        assert(text.drop_last().push(text.last()) =~= text);
        lemma_utf8_len_snoc(text.drop_last(), text.last());
        lemma_utf8_len_ge_len(text.drop_last());
        lemma_unicode_run_bound(form, text.drop_last());
        let st = unicode_run(form, text.drop_last());
        let off = (utf8_len(text.drop_last())) as usize;
        match form {
            Unicode::Nfc => {},
            Unicode::Nfd => {},
            Unicode::Nfkc => {
                lemma_nfc_push_all_bound(
                    st.0,
                    st.1,
                    compatibility_decomposition(text.last()),
                    off,
                    utf8_len(text),
                );
            },
            Unicode::Nfkd => {},
        }
    }
}

/// The per-byte expansion only repeats offsets the buffer holds.
proof fn lemma_expand_offsets_bound(cs: Seq<char>, os: Seq<usize>, bound: int)
    requires
        cs.len() == os.len(),
        forall|q: int| 0 <= q < os.len() ==> (os[q] as int) < bound,
    ensures
        forall|q: int|
            0 <= q < expand_offsets(cs, os).len() ==> (expand_offsets(cs, os)[q] as int) < bound,
    decreases cs.len(),
{
    if cs.len() > 0 {
        lemma_expand_offsets_bound(cs.drop_last(), os.drop_last(), bound);
        let pre = expand_offsets(cs.drop_last(), os.drop_last());
        let blk = repeat_offset(os.last() as int, char_len(cs.last()));
        assert(os.last() == os[os.len() - 1]);
        assert forall|q: int|
            0 <= q < expand_offsets(cs, os).len() implies (expand_offsets(cs, os)[q] as int)
            < bound by {
            if q < pre.len() {
                assert(expand_offsets(cs, os)[q] == pre[q]);
            } else {
                assert(expand_offsets(cs, os)[q] == blk[q - pre.len()]);
            }
        }
    }
}

/// Every offset a Unicode normalization form reports is the starting byte
/// offset of an input character, so it lies strictly inside the input.
pub proof fn lemma_unicode_offsets_in_input(u: Unicode, text: Seq<char>)
    ensures
        forall|k: int|
            0 <= k < u.spec_normalize(text).1.len() ==> (u.spec_normalize(text).1[k] as int)
                < utf8_len(text),
{
    lemma_unicode_run_even(u, text);
    lemma_unicode_run_bound(u, text);
    let st = unicode_run(u, text);
    lemma_expand_offsets_bound(st.0, st.1, utf8_len(text));
}

/// A pipeline of normalizers that cannot fail also always composes: at
/// every stage, every offset the member reports indexes the accumulated
/// mapping, so a sequence of them never rejects an input.
pub proof fn lemma_infallible_pipeline_composes(
    members: Seq<AnyNormalizer>,
    text: Seq<char>,
    offs: Seq<usize>,
)
    requires
        forall|i: int| 0 <= i < members.len() ==> (#[trigger] members[i]).spec_infallible(),
        offs.len() == utf8_len(text),
    ensures
        seq_remap_ok(members, text, offs),
        seq_succeeds(members, text),
    decreases members.len(),
{
    if members.len() > 0 {
        let p = members[0].spec_normalize(text);
        match members[0] {
            AnyNormalizer::Bert(b) => {
                lemma_bert_offsets_in_input(b, text);
                lemma_bert_mapping_total(b, text);
            },
            AnyNormalizer::Unicode(u) => {
                lemma_unicode_offsets_in_input(u, text);
                lemma_unicode_mapping_total(u, text);
            },
            AnyNormalizer::Replace(_) => {
                assert(!members[0].spec_infallible());
            },
        }
        assert forall|i: int|
            0 <= i < members.drop_first().len() implies (#[trigger] members.drop_first()[
        i]).spec_infallible() by {
            assert(members.drop_first()[i] == members[i + 1]);
        }
        lemma_infallible_pipeline_composes(
            members.drop_first(),
            p.0,
            Seq::new(p.1.len(), |k: int| offs[p.1[k] as int]),
        );
    }
}

/// A sequence whose members are all infallible composes from the identity
/// mapping, and so never returns an error.
pub proof fn lemma_infallible_sequence_composes(members: Seq<AnyNormalizer>, text: Seq<char>)
    requires
        forall|i: int| 0 <= i < members.len() ==> (#[trigger] members[i]).spec_infallible(),
    ensures
        seq_remap_ok(members, text, identity_offsets(0, utf8_len(text))),
        seq_succeeds(members, text),
{
    lemma_utf8_len_ge_len(text);
    lemma_infallible_pipeline_composes(members, text, identity_offsets(0, utf8_len(text)));
}

} // verus!
