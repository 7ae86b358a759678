//! Byte-level BPE tokenizer with special-token splitting.
//!
//! Encoding cuts the text at special tokens (`<|im_start|>` and the like), each
//! of which becomes its own id. Every byte of the rest goes through the GPT-2
//! byte map to a character whose one-character vocabulary entry is its base
//! token. Then the merge with the lowest priority index that applies anywhere
//! is applied at its leftmost place, until none applies.
//!
//! File format (`.tokb`), all integers little-endian:
//!
//! ```text
//! magic "TOK1", version u16, reserved u16, n_tokens u32, n_merges u32
//!   version 2 only: n_special u32, reserved u32
//! token offsets   u32 x (n_tokens + 1)
//! token bytes     UTF-8, packed
//! merges          (left u32, right u32, result u32) x n_merges
//!   version 2 only: special ids u32 x n_special
//! ```
//!
//! Merges are priority-ordered: index 0 has the highest priority.
use std::collections::BTreeMap;
use vstd::prelude::*;
use vstd::string::*;
use vstd::utf8::*;
use crate::bytes::{le16, le16_bytes, le32, le32_bytes, le32_round_trip, read_le16, read_le32};
use crate::text::{cap_len, capped, extend_bytes, is_at, occurs_at, text_of};

verus! {

broadcast use vstd::seq_lib::group_seq_properties;

/// "TOK1", read as a little-endian integer.
pub const TOKB_MAGIC: u32 = 0x314B_4F54;

#[derive(Debug)]
pub enum TokenizerError {
    BadMagic,
    BadVersion(u16),
    Truncated { needed: usize, got: usize },
    NameNotUtf8,
    Empty,
    /// The character of this byte is no vocabulary entry, so the file belongs
    /// to no byte-level tokenizer.
    MissingByteChar(u8),
}

// ---------------------------------------------------------------------
// The byte map
// ---------------------------------------------------------------------

/// Bytes that stand for the character with their own code point.
pub open spec fn is_direct(b: int) -> bool {
    0x21 <= b <= 0x7E || 0xA1 <= b <= 0xAC || 0xAE <= b <= 0xFF
}

/// The code point of the character that a byte stands for. The bytes that do
/// not stand for themselves get 256, 257, ... in order.
pub open spec fn byte_codepoint(b: int) -> int {
    if is_direct(b) {
        b
    } else if b <= 0x20 {
        256 + b
    } else if b <= 0xA0 {
        256 + 33 + (b - 0x7F)
    } else {
        256int + 67
    }
}

/// The byte that a code point stands for.
pub open spec fn codepoint_byte(cp: int) -> Option<u8> {
    if is_direct(cp) {
        Some(cp as u8)
    } else if 256 <= cp <= 256 + 32 {
        Some((cp - 256) as u8)
    } else if 256 + 33 <= cp <= 256 + 66 {
        Some((cp - 289 + 0x7F) as u8)
    } else if cp == 256 + 67 {
        Some(0xADu8)
    } else {
        None
    }
}

/// Every byte has its own character: the map can be undone.
pub proof fn byte_map_round_trip(b: u8)
    ensures
        codepoint_byte(byte_codepoint(b as int)) == Some(b),
        byte_codepoint(b as int) < 324,
{
}

/// No character stands for two bytes.
pub proof fn byte_map_onto(cp: int)
    ensures
        codepoint_byte(cp) matches Some(b) ==> byte_codepoint(b as int) == cp,
{
}

/// The one-character text of a byte.
pub open spec fn byte_text(b: u8) -> Seq<char> {
    seq![byte_codepoint(b as int) as char]
}

/// The code points of all bytes, in byte order.
pub fn build_byte_to_char_table() -> (table: Vec<u32>)
    ensures
        table@ == Seq::new(256, |b: int| byte_codepoint(b) as u32),
{
    let mut table: Vec<u32> = Vec::new();
    let mut overflow: u32 = 0;
    let mut b: u32 = 0;
    while b < 256
        invariant
            b <= 256,
            table@.len() == b,
            overflow == (if b <= 0x21 {
                b as int
            } else if b <= 0x7F {
                33
            } else if b <= 0xA1 {
                33 + (b - 0x7F)
            } else if b <= 0xAD {
                67
            } else {
                68
            }),
            forall|k: int| 0 <= k < b ==> table@[k] == byte_codepoint(k),
        decreases 256 - b,
    {
        if (0x21 <= b && b <= 0x7E) || (0xA1 <= b && b <= 0xAC) || 0xAE <= b {
            table.push(b);
        } else {
            table.push(256 + overflow);
            overflow = overflow + 1;
        }
        b = b + 1;
    }
    assert(table@ =~= Seq::new(256, |b: int| byte_codepoint(b) as u32));
    table
}

/// The byte that a character stands for.
fn byte_of_codepoint(cp: u32) -> (r: Option<u8>)
    ensures
        r == codepoint_byte(cp as int),
{
    if (0x21 <= cp && cp <= 0x7E) || (0xA1 <= cp && cp <= 0xAC) || (0xAE <= cp && cp <= 0xFF) {
        Some(cp as u8)
    } else if 256 <= cp && cp <= 288 {
        Some((cp - 256) as u8)
    } else if 289 <= cp && cp <= 322 {
        Some((cp - 289 + 0x7F) as u8)
    } else if cp == 323 {
        Some(0xAD)
    } else {
        None
    }
}

// ---------------------------------------------------------------------
// Model
// ---------------------------------------------------------------------

/// What a tokenizer file says.
#[verifier::ext_equal]
pub struct TokModel {
    /// Token texts, by id.
    pub vocab: Seq<Seq<char>>,
    /// `(left, right, result)`, by priority.
    pub merges: Seq<(u32, u32, u32)>,
    /// Special texts with their ids, the longest first.
    pub specials: Seq<(Seq<char>, u32)>,
}

/// The last id at or below `k - 1` whose text is `t`.
pub open spec fn last_id(vocab: Seq<Seq<char>>, t: Seq<char>, k: int) -> Option<int>
    decreases k,
{
    if k <= 0 {
        None
    } else if vocab[k - 1] == t {
        Some(k - 1)
    } else {
        last_id(vocab, t, k - 1)
    }
}

/// The base token of a byte.
pub open spec fn base_id(vocab: Seq<Seq<char>>, b: u8) -> Option<int> {
    last_id(vocab, byte_text(b), vocab.len() as int)
}

/// The lowest byte at or above `b` that has no base token.
pub open spec fn missing_byte(vocab: Seq<Seq<char>>, b: int) -> Option<u8>
    decreases 256 - b,
{
    if b >= 256 {
        None
    } else if base_id(vocab, b as u8) is None {
        Some(b as u8)
    } else {
        missing_byte(vocab, b + 1)
    }
}

// ---------------------------------------------------------------------
// The file format
// ---------------------------------------------------------------------

/// The counts in the header and where it ends.
pub struct TokHeader {
    pub n_tokens: int,
    pub n_merges: int,
    pub n_special: int,
    pub end: int,
}

pub open spec fn truncated<T>(needed: int, got: nat) -> Result<T, TokenizerError> {
    Err(TokenizerError::Truncated { needed: capped(needed), got: got as usize })
}

pub open spec fn header_of(s: Seq<u8>) -> Result<TokHeader, TokenizerError> {
    if s.len() < 16 {
        truncated(16, s.len())
    } else if le32(s, 0) != TOKB_MAGIC {
        Err(TokenizerError::BadMagic)
    } else if le16(s, 4) == 1 {
        Ok(TokHeader { n_tokens: le32(s, 8), n_merges: le32(s, 12), n_special: 0, end: 16 })
    } else if le16(s, 4) == 2 {
        if s.len() < 24 {
            truncated(24, s.len())
        } else {
            Ok(
                TokHeader {
                    n_tokens: le32(s, 8),
                    n_merges: le32(s, 12),
                    n_special: le32(s, 16),
                    end: 24,
                },
            )
        }
    } else {
        Err(TokenizerError::BadVersion(le16(s, 4) as u16))
    }
}

impl TokHeader {
    /// Entry `i` of the offset table.
    pub open spec fn offset(self, s: Seq<u8>, i: int) -> int {
        le32(s, self.end + 4 * i)
    }

    /// Where the token bytes begin.
    pub open spec fn section(self) -> int {
        self.end + 4 * (self.n_tokens + 1)
    }

    /// Bytes of token `i`.
    pub open spec fn token_bytes(self, s: Seq<u8>, i: int) -> Seq<u8> {
        s.subrange(self.section() + self.offset(s, i), self.section() + self.offset(s, i + 1))
    }

    /// Where the merges begin.
    pub open spec fn merges_at(self, s: Seq<u8>) -> int {
        self.section() + (self.offset(s, self.n_tokens) - self.offset(s, 0))
    }

    /// Where the special ids begin.
    pub open spec fn specials_at(self, s: Seq<u8>) -> int {
        self.merges_at(s) + 12 * self.n_merges
    }

    /// The first place at or behind `i` where the offsets fall.
    pub open spec fn falling_offset(self, s: Seq<u8>, i: int) -> Option<TokenizerError>
        decreases self.n_tokens - i,
    {
        if i >= self.n_tokens {
            None
        } else if self.offset(s, i + 1) < self.offset(s, i) {
            Some(
                TokenizerError::Truncated {
                    needed: capped(self.offset(s, i)),
                    got: capped(self.offset(s, i + 1)),
                },
            )
        } else {
            self.falling_offset(s, i + 1)
        }
    }

    /// What is wrong with the first malformed token at or behind `i`.
    pub open spec fn bad_token(self, s: Seq<u8>, i: int) -> Option<TokenizerError>
        decreases self.n_tokens - i,
    {
        if i >= self.n_tokens {
            None
        } else if self.section() + self.offset(s, i + 1) > s.len() {
            Some(
                TokenizerError::Truncated {
                    needed: capped(self.section() + self.offset(s, i + 1)),
                    got: s.len() as usize,
                },
            )
        } else if !valid_utf8(self.token_bytes(s, i)) {
            Some(TokenizerError::NameNotUtf8)
        } else {
            self.bad_token(s, i + 1)
        }
    }

    pub open spec fn vocab(self, s: Seq<u8>) -> Seq<Seq<char>> {
        Seq::new(self.n_tokens as nat, |i: int| decode_utf8(self.token_bytes(s, i)))
    }

    pub open spec fn merge(self, s: Seq<u8>, i: int) -> (u32, u32, u32) {
        let m = self.merges_at(s) + 12 * i;
        (le32(s, m) as u32, le32(s, m + 4) as u32, le32(s, m + 8) as u32)
    }

    pub open spec fn merges(self, s: Seq<u8>) -> Seq<(u32, u32, u32)> {
        Seq::new(self.n_merges as nat, |i: int| self.merge(s, i))
    }

    pub open spec fn special_id(self, s: Seq<u8>, i: int) -> u32 {
        le32(s, self.specials_at(s) + 4 * i) as u32
    }

    /// The special tokens of the first `k` ids. An id beyond the vocabulary, or
    /// of an empty text, is passed over. Each text goes behind all that are at
    /// least as long.
    pub open spec fn specials(self, s: Seq<u8>, k: int) -> Seq<(Seq<char>, u32)>
        decreases k,
    {
        if k <= 0 {
            Seq::empty()
        } else {
            let before = self.specials(s, k - 1);
            let id = self.special_id(s, k - 1);
            if id < self.n_tokens && self.vocab(s)[id as int].len() > 0 {
                insert_by_length(before, (self.vocab(s)[id as int], id))
            } else {
                before
            }
        }
    }
}

/// Bytes of a text.
pub open spec fn byte_len(t: Seq<char>) -> nat {
    encode_utf8(t).len()
}

/// How many leading entries are at least `n` bytes long.
pub open spec fn longer_prefix(list: Seq<(Seq<char>, u32)>, n: nat) -> nat
    decreases list.len(),
{
    if list.len() == 0 || byte_len(list[0].0) < n {
        0
    } else {
        1 + longer_prefix(list.drop_first(), n)
    }
}

/// Puts an entry behind the leading ones that are at least as long.
pub open spec fn insert_by_length(list: Seq<(Seq<char>, u32)>, e: (Seq<char>, u32)) -> Seq<
    (Seq<char>, u32),
> {
    list.insert(longer_prefix(list, byte_len(e.0)) as int, e)
}

/// The model in a file, or what is wrong with the file.
pub open spec fn model_of(s: Seq<u8>) -> Result<TokModel, TokenizerError> {
    match header_of(s) {
        Err(e) => Err(e),
        Ok(h) => if h.n_tokens == 0 {
            Err(TokenizerError::Empty)
        } else if s.len() < h.section() {
            truncated(h.section(), s.len())
        } else if h.falling_offset(s, 0) is Some {
            Err(h.falling_offset(s, 0)->0)
        } else if h.bad_token(s, 0) is Some {
            Err(h.bad_token(s, 0)->0)
        } else if s.len() < h.specials_at(s) {
            truncated(h.specials_at(s), s.len())
        } else if h.n_special > 0 && s.len() < h.specials_at(s) + 4 * h.n_special {
            truncated(h.specials_at(s) + 4 * h.n_special, s.len())
        } else if missing_byte(h.vocab(s), 0) is Some {
            Err(TokenizerError::MissingByteChar(missing_byte(h.vocab(s), 0)->0))
        } else {
            Ok(
                TokModel {
                    vocab: h.vocab(s),
                    merges: h.merges(s),
                    specials: h.specials(s, h.n_special),
                },
            )
        },
    }
}

// ---------------------------------------------------------------------
// Merging
// ---------------------------------------------------------------------

/// The lowest of the first `k` merges that joins `l` and `r`.
pub open spec fn lowest_merge(merges: Seq<(u32, u32, u32)>, l: u32, r: u32, k: int) -> Option<int>
    decreases k,
{
    if k <= 0 {
        None
    } else {
        match lowest_merge(merges, l, r, k - 1) {
            Some(p) => Some(p),
            None => if merges[k - 1].0 == l && merges[k - 1].1 == r {
                Some(k - 1)
            } else {
                None
            },
        }
    }
}

/// The merge that joins `l` and `r`.
pub open spec fn merge_of(merges: Seq<(u32, u32, u32)>, l: u32, r: u32) -> Option<int> {
    lowest_merge(merges, l, r, merges.len() as int)
}

/// Among the first `k` neighbouring pairs, the leftmost of those whose merge
/// has the lowest priority index: that index, and the place of the pair.
pub open spec fn best_merge(merges: Seq<(u32, u32, u32)>, toks: Seq<u32>, k: int) -> Option<
    (int, int),
>
    decreases k,
{
    if k <= 0 {
        None
    } else {
        let before = best_merge(merges, toks, k - 1);
        match merge_of(merges, toks[k - 1], toks[k]) {
            None => before,
            Some(p) => match before {
                None => Some((p, k - 1)),
                Some((q, _)) => if p < q {
                    Some((p, k - 1))
                } else {
                    before
                },
            },
        }
    }
}

/// Joins the pair at `pos` into `result`.
pub open spec fn join_at(toks: Seq<u32>, pos: int, result: u32) -> Seq<u32> {
    toks.update(pos, result).remove(pos + 1)
}

/// Applies the best merge until none applies.
pub open spec fn bpe(merges: Seq<(u32, u32, u32)>, toks: Seq<u32>) -> Seq<u32>
    decreases toks.len(),
{
    match best_merge(merges, toks, toks.len() - 1) {
        None => toks,
        Some((p, pos)) => if 0 <= pos && pos + 1 < toks.len() {
            bpe(merges, join_at(toks, pos, merges[p].2))
        } else {
            toks
        },
    }
}

/// The merge that is applied is one of the rules, stands at its place, no pair
/// has a rule with a lower index, and none to its left has the same one.
pub proof fn best_merge_is_lowest(merges: Seq<(u32, u32, u32)>, toks: Seq<u32>, k: int)
    requires
        k < toks.len(),
    ensures
        match best_merge(merges, toks, k) {
            Some((p, pos)) => {
                &&& 0 <= pos < k
                &&& 0 <= p < merges.len()
                &&& merge_of(merges, toks[pos], toks[pos + 1]) == Some(p)
                &&& merges[p].0 == toks[pos]
                &&& merges[p].1 == toks[pos + 1]
                &&& forall|j: int|
                    0 <= j < k ==> (#[trigger] merge_of(merges, toks[j], toks[j + 1]) matches Some(
                        q,
                    ) ==> p < q || (p == q && pos <= j))
            },
            None => forall|j: int|
                0 <= j < k ==> (#[trigger] merge_of(merges, toks[j], toks[j + 1])) is None,
        },
    decreases k,
{
    if k > 0 {
        best_merge_is_lowest(merges, toks, k - 1);
        lemma_lowest_merge(merges, toks[k - 1], toks[k], merges.len() as int);
    }
}

proof fn lemma_lowest_merge(merges: Seq<(u32, u32, u32)>, l: u32, r: u32, k: int)
    requires
        k <= merges.len(),
    ensures
        match lowest_merge(merges, l, r, k) {
            Some(p) => 0 <= p < k && merges[p].0 == l && merges[p].1 == r,
            None => forall|m: int|
                0 <= m < k ==> !((#[trigger] merges[m]).0 == l && merges[m].1 == r),
        },
    decreases k,
{
    if k > 0 {
        lemma_lowest_merge(merges, l, r, k - 1);
    }
}

/// Merging goes on until no merge applies: in what is left no two neighbours
/// are the left and the right of a merge. It makes a sequence no longer, and
/// something is left of anything.
pub proof fn merging_goes_to_the_end(merges: Seq<(u32, u32, u32)>, toks: Seq<u32>)
    ensures
        forall|i: int, m: int|
            0 <= i && i + 1 < bpe(merges, toks).len() && 0 <= m < merges.len() ==> !((
            #[trigger] merges[m]).0 == (#[trigger] bpe(merges, toks)[i]) && merges[m].1 == bpe(
                merges,
                toks,
            )[i + 1]),
        bpe(merges, toks).len() <= toks.len(),
        toks.len() > 0 ==> bpe(merges, toks).len() > 0,
    decreases toks.len(),
{
    if toks.len() > 0 {
        best_merge_is_lowest(merges, toks, toks.len() - 1);
    }
    match best_merge(merges, toks, toks.len() - 1) {
        None => {
            assert forall|i: int, m: int|
                0 <= i && i + 1 < toks.len() && 0 <= m < merges.len() implies !((
            #[trigger] merges[m]).0 == (#[trigger] toks[i]) && merges[m].1 == toks[i + 1]) by {
                assert(merge_of(merges, toks[i], toks[i + 1]) is None);
                lemma_lowest_merge(merges, toks[i], toks[i + 1], merges.len() as int);
            }
        },
        Some((p, pos)) => {
            merging_goes_to_the_end(merges, join_at(toks, pos, merges[p].2));
        },
    }
}

// ---------------------------------------------------------------------
// Encoding and decoding
// ---------------------------------------------------------------------

impl TokModel {
    /// The first special text at or behind entry `k` that stands at `i`: its id
    /// and its length in bytes.
    pub open spec fn special_at(self, s: Seq<u8>, i: int, k: int) -> Option<(u32, int)>
        decreases self.specials.len() - k,
    {
        if k >= self.specials.len() {
            None
        } else if occurs_at(s, encode_utf8(self.specials[k].0), i) {
            Some((self.specials[k].1, byte_len(self.specials[k].0) as int))
        } else {
            self.special_at(s, i, k + 1)
        }
    }

    /// The first place at or behind `i` where a special text stands, or the end.
    pub open spec fn next_special(self, s: Seq<u8>, i: int) -> int
        decreases s.len() - i,
    {
        if i >= s.len() || self.special_at(s, i, 0) is Some {
            i
        } else {
            self.next_special(s, i + 1)
        }
    }

    /// The base tokens of some bytes.
    pub open spec fn base_tokens(self, s: Seq<u8>) -> Seq<u32> {
        Seq::new(s.len(), |i: int| base_id(self.vocab, s[i])->0 as u32)
    }

    /// The tokens of bytes without special texts.
    pub open spec fn chunk_tokens(self, s: Seq<u8>) -> Seq<u32> {
        bpe(self.merges, self.base_tokens(s))
    }

    /// The tokens of the bytes from `i` on.
    pub open spec fn tokens_from(self, s: Seq<u8>, i: int) -> Seq<u32>
        decreases s.len() - i,
    {
        if i >= s.len() {
            Seq::empty()
        } else {
            proof {
                self.lemma_special_at(s, i, 0);
            }
            match self.special_at(s, i, 0) {
                Some((id, n)) => if n > 0 {
                    seq![id] + self.tokens_from(s, i + n)
                } else {
                    Seq::empty()
                },
                None => {
                    let e = self.next_special(s, i + 1);
                    proof {
                        self.lemma_next_special(s, i + 1);
                    }
                    self.chunk_tokens(s.subrange(i, e)) + self.tokens_from(s, e)
                },
            }
        }
    }

    pub proof fn lemma_special_at(self, s: Seq<u8>, i: int, k: int)
        requires
            0 <= k,
        ensures
            self.special_at(s, i, k) matches Some((id, n)) ==> 0 <= i && i + n <= s.len() && exists|
                j: int,
            |
                k <= j < self.specials.len() && #[trigger] self.specials[j].1 == id && byte_len(
                    self.specials[j].0,
                ) == n && occurs_at(s, encode_utf8(self.specials[j].0), i),
        decreases self.specials.len() - k,
    {
        if k < self.specials.len() {
            if occurs_at(s, encode_utf8(self.specials[k].0), i) {
                assert(self.specials[k].1 == self.specials[k].1);
            } else {
                self.lemma_special_at(s, i, k + 1);
            }
        }
    }

    pub proof fn lemma_next_special(self, s: Seq<u8>, i: int)
        ensures
            i <= self.next_special(s, i),
            i <= s.len() ==> self.next_special(s, i) <= s.len(),
        decreases s.len() - i,
    {
        if i < s.len() && self.special_at(s, i, 0) is None {
            self.lemma_next_special(s, i + 1);
        }
    }

    /// The text of a token; an id beyond the vocabulary has none.
    pub open spec fn token_text(self, id: u32) -> Seq<char> {
        if id < self.vocab.len() {
            self.vocab[id as int]
        } else {
            Seq::empty()
        }
    }

    /// The texts of the tokens, one behind the other.
    pub open spec fn text_of_tokens(self, ids: Seq<u32>) -> Seq<char>
        decreases ids.len(),
    {
        if ids.len() == 0 {
            Seq::empty()
        } else {
            self.text_of_tokens(ids.drop_last()) + self.token_text(ids.last())
        }
    }
}

/// The bytes that one character of a token text stands for: its byte under the
/// byte map, or its UTF-8 encoding where the map does not hold it.
pub open spec fn char_bytes(c: char) -> Seq<u8> {
    match codepoint_byte(c as int) {
        Some(b) => seq![b],
        None => encode_utf8(seq![c]),
    }
}

/// The bytes that a token text stands for.
pub open spec fn text_bytes(t: Seq<char>) -> Seq<u8>
    decreases t.len(),
{
    if t.len() == 0 {
        Seq::empty()
    } else {
        text_bytes(t.drop_last()) + char_bytes(t.last())
    }
}

/// Appends the bytes that one character of a token text stands for.
fn push_char_bytes(out: &mut Vec<u8>, c: char)
    ensures
        final(out)@ == old(out)@ + char_bytes(c),
{
    match byte_of_codepoint(c as u32) {
        Some(b) => {
            out.push(b);
            assert(out@ =~= old(out)@ + seq![b]);
        },
        None => {
            let mut one = String::new();
            one.push(c);
            assert(one@ =~= seq![c]);
            extend_bytes(out, one.as_str().as_bytes());
        },
    }
}

/// What `String::from_utf8_lossy` makes of some bytes.
pub uninterp spec fn utf8_lossy(s: Seq<u8>) -> Seq<char>;

/// `String::from_utf8_lossy` keeps valid UTF-8 as it is. What it puts in the
/// place of invalid sequences is left to the name.
#[verifier::external_body]
fn from_utf8_lossy(s: &[u8]) -> (r: String)
    ensures
        r@ == utf8_lossy(s@),
        valid_utf8(s@) ==> r@ == decode_utf8(s@),
{
    String::from_utf8_lossy(s).into_owned()
}

/// Decoded bytes as text.
pub open spec fn shown_text(s: Seq<u8>) -> Seq<char> {
    if valid_utf8(s) {
        decode_utf8(s)
    } else {
        utf8_lossy(s)
    }
}

// ---------------------------------------------------------------------
// The tokenizer
// ---------------------------------------------------------------------

/// A loaded tokenizer.
pub struct Tokenizer {
    /// Token texts, by id.
    vocab: Vec<String>,
    /// Merge rules, by priority.
    merges: Vec<(u32, u32, u32)>,
    /// The lowest merge of each pair, by the packed pair.
    merge_index: BTreeMap<u64, u32>,
    /// Special texts with their ids, the longest first.
    special_strings: Vec<(String, u32)>,
    /// The base token of each byte.
    base_ids: Vec<u32>,
}

/// The texts of some strings.
pub open spec fn texts(v: Seq<String>) -> Seq<Seq<char>> {
    v.map_values(|t: String| t@)
}

/// Special entries with their texts.
pub open spec fn special_texts(v: Seq<(String, u32)>) -> Seq<(Seq<char>, u32)> {
    v.map_values(|e: (String, u32)| (e.0@, e.1))
}

spec fn pair_key(l: u32, r: u32) -> u64 {
    (l * 0x1_0000_0000 + r) as u64
}

spec fn index_get(m: Map<u64, u32>, l: u32, r: u32) -> Option<int> {
    if m.contains_key(pair_key(l, r)) {
        Some(m[pair_key(l, r)] as int)
    } else {
        None
    }
}

fn pack_pair(l: u32, r: u32) -> (k: u64)
    ensures
        k == pair_key(l, r),
{
    l as u64 * 0x1_0000_0000 + r as u64
}

proof fn lemma_pair_key_injective(l: u32, r: u32, l2: u32, r2: u32)
    requires
        pair_key(l, r) == pair_key(l2, r2),
    ensures
        l == l2,
        r == r2,
{
    assert(l * 0x1_0000_0000 + r <= u64::MAX);
    assert(l2 * 0x1_0000_0000 + r2 <= u64::MAX);
}

/// Whether `index` holds the lowest merge of every pair among the first `k`.
spec fn indexed(index: Map<u64, u32>, merges: Seq<(u32, u32, u32)>, k: int) -> bool {
    forall|l: u32, r: u32| #[trigger] index_get(index, l, r) == lowest_merge(merges, l, r, k)
}

fn build_merge_index(merges: &Vec<(u32, u32, u32)>) -> (index: BTreeMap<u64, u32>)
    requires
        merges@.len() <= u32::MAX,
    ensures
        indexed(index@, merges@, merges@.len() as int),
{
    let mut index: BTreeMap<u64, u32> = BTreeMap::new();
    let mut i: usize = 0;
    while i < merges.len()
        invariant
            i <= merges@.len() <= u32::MAX,
            indexed(index@, merges@, i as int),
        decreases merges@.len() - i,
    {
        let l: u32 = merges[i].0;
        let r: u32 = merges[i].1;
        let ghost before = index@;
        let key: u64 = pack_pair(l, r);
        let fresh: bool = index.get(&key).is_none();
        assert(fresh == !before.contains_key(key));
        if fresh {
            index.insert(key, i as u32);
        }
        proof {
            assert forall|l2: u32, r2: u32| #[trigger]
                index_get(index@, l2, r2) == lowest_merge(merges@, l2, r2, i + 1) by {
                assert(index_get(before, l2, r2) == lowest_merge(merges@, l2, r2, i as int));
                assert(index_get(before, l, r) == lowest_merge(merges@, l, r, i as int));
                if pair_key(l2, r2) == key {
                    lemma_pair_key_injective(l, r, l2, r2);
                }
            }
        }
        i = i + 1;
    }
    index
}

proof fn lemma_last_id(vocab: Seq<Seq<char>>, t: Seq<char>, k: int)
    ensures
        last_id(vocab, t, k) matches Some(i) ==> 0 <= i < k && vocab[i] == t,
    decreases k,
{
    if k > 0 && vocab[k - 1] != t {
        lemma_last_id(vocab, t, k - 1);
    }
}

/// The base tokens of all bytes, as far as the vocabulary has them.
fn find_base_ids(vocab: &Vec<String>) -> (ids: Vec<Option<u32>>)
    requires
        vocab@.len() <= u32::MAX,
    ensures
        ids@.len() == 256,
        forall|b: int|
            0 <= b < 256 ==> match #[trigger] ids@[b] {
                Some(id) => base_id(texts(vocab@), b as u8) == Some(id as int),
                None => base_id(texts(vocab@), b as u8) is None,
            },
{
    let mut ids: Vec<Option<u32>> = Vec::new();
    let mut n: usize = 0;
    while n < 256
        invariant
            n <= 256,
            ids@.len() == n,
            forall|b: int| 0 <= b < n ==> (#[trigger] ids@[b]) is None,
        decreases 256 - n,
    {
        ids.push(None);
        n = n + 1;
    }
    let ghost all = texts(vocab@);
    let mut i: usize = 0;
    while i < vocab.len()
        invariant
            i <= vocab@.len() <= u32::MAX,
            all == texts(vocab@),
            ids@.len() == 256,
            forall|b: int|
                0 <= b < 256 ==> match #[trigger] ids@[b] {
                    Some(id) => last_id(all, byte_text(b as u8), i as int) == Some(id as int),
                    None => last_id(all, byte_text(b as u8), i as int) is None,
                },
        decreases vocab@.len() - i,
    {
        let t = vocab[i].as_str();
        let ghost before = ids@;
        let mut hit: Option<u8> = None;
        if t.unicode_len() == 1 {
            let c: char = t.get_char(0);
            hit = byte_of_codepoint(c as u32);
            proof {
                assert(all[i as int] =~= seq![c]);
                assert(hit == codepoint_byte(c as int));
            }
        }
        if let Some(b) = hit {
            ids.set(b as usize, Some(i as u32));
        }
        proof {
            assert forall|b: int| 0 <= b < 256 implies match #[trigger] ids@[b] {
                Some(id) => last_id(all, byte_text(b as u8), i + 1) == Some(id as int),
                None => last_id(all, byte_text(b as u8), i + 1) is None,
            } by {
                let before_b = before[b];
                byte_map_round_trip(b as u8);
                let c = byte_codepoint(b) as char;
                assert(c as int == byte_codepoint(b));
                if all[i as int] == byte_text(b as u8) {
                    assert(all[i as int].len() == 1);
                    assert(all[i as int][0] == c);
                    assert(hit == Some(b as u8));
                } else if hit == Some(b as u8) {
                    let d = all[i as int][0];
                    byte_map_onto(d as int);
                    assert(d as int == byte_codepoint(b));
                    assert(all[i as int] =~= byte_text(b as u8));
                }
            }
        }
        i = i + 1;
    }
    ids
}

/// Every byte's base token, or the lowest byte that has none.
fn require_base_ids(vocab: &Vec<String>) -> (r: Result<Vec<u32>, u8>)
    requires
        vocab@.len() <= u32::MAX,
    ensures
        match r {
            Ok(ids) => {
                &&& missing_byte(texts(vocab@), 0) is None
                &&& ids@.len() == 256
                &&& forall|b: int|
                    0 <= b < 256 ==> base_id(texts(vocab@), b as u8) == Some(
                        #[trigger] ids@[b] as int,
                    )
            },
            Err(b) => missing_byte(texts(vocab@), 0) == Some(b),
        },
{
    let found = find_base_ids(vocab);
    let mut ids: Vec<u32> = Vec::new();
    let mut b: usize = 0;
    while b < 256
        invariant
            b <= 256,
            found@.len() == 256,
            forall|k: int|
                0 <= k < 256 ==> match #[trigger] found@[k] {
                    Some(id) => base_id(texts(vocab@), k as u8) == Some(id as int),
                    None => base_id(texts(vocab@), k as u8) is None,
                },
            missing_byte(texts(vocab@), 0) == missing_byte(texts(vocab@), b as int),
            ids@.len() == b,
            forall|k: int|
                0 <= k < b ==> base_id(texts(vocab@), k as u8) == Some(#[trigger] ids@[k] as int),
        decreases 256 - b,
    {
        match found[b] {
            Some(id) => {
                ids.push(id);
            },
            None => {
                return Err(b as u8);
            },
        }
        b = b + 1;
    }
    Ok(ids)
}

struct Header {
    n_tokens: usize,
    n_merges: usize,
    n_special: usize,
    end: usize,
}

impl View for Header {
    type V = TokHeader;

    closed spec fn view(&self) -> TokHeader {
        TokHeader {
            n_tokens: self.n_tokens as int,
            n_merges: self.n_merges as int,
            n_special: self.n_special as int,
            end: self.end as int,
        }
    }
}

fn parse_header(s: &[u8]) -> (r: Result<Header, TokenizerError>)
    ensures
        match r {
            Ok(h) => header_of(s@) == Ok::<TokHeader, TokenizerError>(h@) && h.n_tokens <= u32::MAX
                && h.n_merges <= u32::MAX && h.n_special <= u32::MAX && h.end <= 24 && h.end
                <= s@.len(),
            Err(e) => header_of(s@) == Err::<TokHeader, TokenizerError>(e),
        },
{
    if s.len() < 16 {
        return Err(TokenizerError::Truncated { needed: 16, got: s.len() });
    }
    if read_le32(s, 0) != TOKB_MAGIC {
        return Err(TokenizerError::BadMagic);
    }
    let version: u16 = read_le16(s, 4);
    if version == 1 {
        return Ok(
            Header {
                n_tokens: read_le32(s, 8) as usize,
                n_merges: read_le32(s, 12) as usize,
                n_special: 0,
                end: 16,
            },
        );
    }
    if version != 2 {
        return Err(TokenizerError::BadVersion(version));
    }
    if s.len() < 24 {
        return Err(TokenizerError::Truncated { needed: 24, got: s.len() });
    }
    Ok(
        Header {
            n_tokens: read_le32(s, 8) as usize,
            n_merges: read_le32(s, 12) as usize,
            n_special: read_le32(s, 16) as usize,
            end: 24,
        },
    )
}

/// Whether the offset table lies in the file.
spec fn table_fits(h: TokHeader, s: Seq<u8>) -> bool {
    0 <= h.end && 0 <= h.n_tokens && h.section() <= s.len()
}

fn read_offset(s: &[u8], h: &Header, i: usize) -> (r: usize)
    requires
        table_fits(h@, s@),
        s@.len() == s.len(),
        i <= h.n_tokens,
    ensures
        r == h@.offset(s@, i as int),
        r <= u32::MAX,
{
    read_le32(s, h.end + 4 * i) as usize
}

fn check_offsets(s: &[u8], h: &Header) -> (r: Result<(), TokenizerError>)
    requires
        table_fits(h@, s@),
    ensures
        match r {
            Ok(_) => h@.falling_offset(s@, 0) is None,
            Err(e) => h@.falling_offset(s@, 0) == Some(e),
        },
{
    let mut i: usize = 0;
    while i < h.n_tokens
        invariant
            i <= h.n_tokens,
            table_fits(h@, s@),
            h@.falling_offset(s@, 0) == h@.falling_offset(s@, i as int),
        decreases h.n_tokens - i,
    {
        let a: usize = read_offset(s, h, i);
        let b: usize = read_offset(s, h, i + 1);
        if b < a {
            return Err(TokenizerError::Truncated { needed: a, got: b });
        }
        i = i + 1;
    }
    Ok(())
}

proof fn lemma_offsets_rise(h: TokHeader, s: Seq<u8>, from: int, i: int, j: int)
    requires
        h.falling_offset(s, from) is None,
        from <= i <= j <= h.n_tokens,
    ensures
        h.offset(s, i) <= h.offset(s, j),
    decreases j - from, j - i,
{
    if i < j {
        if from < i {
            lemma_offsets_rise(h, s, from + 1, i, j);
        } else {
            lemma_offsets_rise(h, s, from + 1, i + 1, j);
        }
    }
}

fn read_vocab(s: &[u8], h: &Header) -> (r: Result<Vec<String>, TokenizerError>)
    requires
        table_fits(h@, s@),
        h@.section() <= s.len(),
        h@.falling_offset(s@, 0) is None,
        h.n_tokens <= u32::MAX,
        h.end <= 24,
    ensures
        match r {
            Ok(v) => h@.bad_token(s@, 0) is None && texts(v@) == h@.vocab(s@),
            Err(e) => h@.bad_token(s@, 0) == Some(e),
        },
{
    let mut vocab: Vec<String> = Vec::new();
    let section: usize = h.end + 4 * (h.n_tokens + 1);
    let mut i: usize = 0;
    while i < h.n_tokens
        invariant
            i <= h.n_tokens <= u32::MAX,
            table_fits(h@, s@),
            h@.falling_offset(s@, 0) is None,
            section == h@.section(),
            section <= s.len(),
            h@.bad_token(s@, 0) == h@.bad_token(s@, i as int),
            vocab@.len() == i,
            forall|k: int| 0 <= k < i ==> (#[trigger] vocab@[k])@ == h@.vocab(s@)[k],
        decreases h.n_tokens - i,
    {
        let a: usize = read_offset(s, h, i);
        let b: usize = read_offset(s, h, i + 1);
        proof {
            lemma_offsets_rise(h@, s@, 0, i as int, i + 1);
        }
        if b > s.len() - section {
            return Err(
                TokenizerError::Truncated {
                    needed: cap_len((section as u64).saturating_add(b as u64)),
                    got: s.len(),
                },
            );
        }
        match text_of(s, section + a, section + b) {
            Some(t) => {
                vocab.push(t);
            },
            None => {
                return Err(TokenizerError::NameNotUtf8);
            },
        }
        i = i + 1;
    }
    assert(texts(vocab@) =~= h@.vocab(s@));
    Ok(vocab)
}

fn read_merges(s: &[u8], n: usize, at: usize) -> (r: Vec<(u32, u32, u32)>)
    requires
        at + 12 * n <= s.len(),
    ensures
        r@ == Seq::new(
            n as nat,
            |i: int|
                (
                    le32(s@, at + 12 * i) as u32,
                    le32(s@, at + 12 * i + 4) as u32,
                    le32(s@, at + 12 * i + 8) as u32,
                ),
        ),
{
    let mut merges: Vec<(u32, u32, u32)> = Vec::new();
    let mut i: usize = 0;
    while i < n
        invariant
            i <= n,
            at + 12 * n <= s.len(),
            merges@.len() == i,
            forall|k: int|
                0 <= k < i ==> #[trigger] merges@[k] == (
                    le32(s@, at + 12 * k) as u32,
                    le32(s@, at + 12 * k + 4) as u32,
                    le32(s@, at + 12 * k + 8) as u32,
                ),
        decreases n - i,
    {
        let m: usize = at + 12 * i;
        merges.push((read_le32(s, m), read_le32(s, m + 4), read_le32(s, m + 8)));
        i = i + 1;
    }
    merges
}

proof fn lemma_longer_prefix(list: Seq<(Seq<char>, u32)>, n: nat, k: int)
    requires
        0 <= k <= list.len(),
        forall|i: int| 0 <= i < k ==> byte_len((#[trigger] list[i]).0) >= n,
        k == list.len() || byte_len(list[k].0) < n,
    ensures
        longer_prefix(list, n) == k,
    decreases list.len(),
{
    if k > 0 {
        assert(byte_len(list[0].0) >= n);
        let rest = list.drop_first();
        assert forall|i: int| 0 <= i < k - 1 implies byte_len((#[trigger] rest[i]).0) >= n by {
            assert(rest[i] == list[i + 1]);
        }
        lemma_longer_prefix(rest, n, k - 1);
    }
}

fn insert_special(list: &mut Vec<(String, u32)>, t: String, id: u32)
    ensures
        special_texts(final(list)@) == insert_by_length(special_texts(old(list)@), (t@, id)),
{
    let n: usize = t.as_str().as_bytes().len();
    let ghost before = special_texts(list@);
    let mut k: usize = 0;
    while k < list.len() && list[k].0.as_str().as_bytes().len() >= n
        invariant
            k <= list@.len(),
            n == byte_len(t@),
            list@ == old(list)@,
            before == special_texts(list@),
            forall|i: int|
                0 <= i < k ==> byte_len((#[trigger] before[i]).0) >= n,
        decreases list@.len() - k,
    {
        assert(before[k as int].0 == list@[k as int].0@);
        k = k + 1;
    }
    proof {
        assert(k < list@.len() ==> before[k as int].0 == list@[k as int].0@);
        lemma_longer_prefix(before, n as nat, k as int);
    }
    list.insert(k, (t, id));
    proof {
        assert(special_texts(list@) =~= before.insert(k as int, (t@, id)));
    }
}

/// Special entries are never empty.
spec fn no_empty(list: Seq<(Seq<char>, u32)>) -> bool {
    forall|i: int| 0 <= i < list.len() ==> (#[trigger] list[i]).0.len() > 0
}

proof fn lemma_longer_prefix_bound(list: Seq<(Seq<char>, u32)>, n: nat)
    ensures
        longer_prefix(list, n) <= list.len(),
    decreases list.len(),
{
    if list.len() > 0 {
        lemma_longer_prefix_bound(list.drop_first(), n);
    }
}

proof fn lemma_specials_no_empty(h: TokHeader, s: Seq<u8>, k: int)
    ensures
        no_empty(h.specials(s, k)),
    decreases k,
{
    if k > 0 {
        lemma_specials_no_empty(h, s, k - 1);
        let before = h.specials(s, k - 1);
        let id = h.special_id(s, k - 1);
        if id < h.n_tokens && h.vocab(s)[id as int].len() > 0 {
            let e = (h.vocab(s)[id as int], id);
            lemma_longer_prefix_bound(before, byte_len(e.0));
            let at = longer_prefix(before, byte_len(e.0)) as int;
            let after = before.insert(at, e);
            assert forall|i: int| 0 <= i < after.len() implies (#[trigger] after[i]).0.len() > 0 by {
                if i < at {
                    assert(after[i] == before[i]);
                } else if i > at {
                    assert(after[i] == before[i - 1]);
                }
            }
        }
    }
}

fn read_specials(s: &[u8], h: &Header, vocab: &Vec<String>, at: usize) -> (r: Vec<(String, u32)>)
    requires
        texts(vocab@) == h@.vocab(s@),
        at == h@.specials_at(s@),
        at + 4 * h.n_special <= s.len(),
    ensures
        special_texts(r@) == h@.specials(s@, h.n_special as int),
{
    let mut list: Vec<(String, u32)> = Vec::new();
    let mut i: usize = 0;
    assert(special_texts(list@) =~= h@.specials(s@, 0));
    while i < h.n_special
        invariant
            i <= h.n_special,
            texts(vocab@) == h@.vocab(s@),
            at == h@.specials_at(s@),
            at + 4 * h.n_special <= s.len(),
            special_texts(list@) == h@.specials(s@, i as int),
        decreases h.n_special - i,
    {
        let id: u32 = read_le32(s, at + 4 * i);
        assert(vocab@.len() == texts(vocab@).len());
        if (id as usize) < vocab.len() {
            let t = vocab[id as usize].as_str();
            assert(t@ == h@.vocab(s@)[id as int]);
            if !t.is_empty() {
                insert_special(&mut list, t.to_owned(), id);
            }
        }
        i = i + 1;
    }
    list
}

proof fn lemma_nonempty_bytes(t: Seq<char>)
    requires
        t.len() > 0,
    ensures
        byte_len(t) > 0,
{
    encode_utf8_decode_utf8(t);
    if encode_utf8(t).len() == 0 {
        assert(decode_utf8(encode_utf8(t)) =~= Seq::<char>::empty());
    }
}

impl Tokenizer {
    /// What the tokenizer knows.
    pub closed spec fn model(&self) -> TokModel {
        TokModel {
            vocab: texts(self.vocab@),
            merges: self.merges@,
            specials: special_texts(self.special_strings@),
        }
    }

    #[verifier::type_invariant]
    spec fn wf(self) -> bool {
        &&& self.vocab@.len() <= u32::MAX
        &&& self.merges@.len() <= u32::MAX
        &&& indexed(self.merge_index@, self.merges@, self.merges@.len() as int)
        &&& no_empty(special_texts(self.special_strings@))
        &&& self.base_ids@.len() == 256
        &&& forall|b: int|
            0 <= b < 256 ==> base_id(texts(self.vocab@), b as u8) == Some(
                #[trigger] self.base_ids@[b] as int,
            )
    }

    /// Loads a tokenizer file of either version.
    pub fn parse(bytes: &[u8]) -> (r: Result<Self, TokenizerError>)
        ensures
            match r {
                Ok(t) => model_of(bytes@) == Ok::<TokModel, TokenizerError>(t.model()),
                Err(e) => model_of(bytes@) == Err::<TokModel, TokenizerError>(e),
            },
    {
        let h = match parse_header(bytes) {
            Ok(h) => h,
            Err(e) => {
                return Err(e);
            },
        };
        if h.n_tokens == 0 {
            return Err(TokenizerError::Empty);
        }
        let section64: u64 = h.end as u64 + 4 * (h.n_tokens as u64 + 1);
        if (bytes.len() as u64) < section64 {
            return Err(TokenizerError::Truncated { needed: cap_len(section64), got: bytes.len() });
        }
        match check_offsets(bytes, &h) {
            Ok(_) => {},
            Err(e) => {
                return Err(e);
            },
        }
        let vocab = match read_vocab(bytes, &h) {
            Ok(v) => v,
            Err(e) => {
                return Err(e);
            },
        };
        let first: usize = read_offset(bytes, &h, 0);
        let last: usize = read_offset(bytes, &h, h.n_tokens);
        proof {
            lemma_offsets_rise(h@, bytes@, 0, 0, h.n_tokens as int);
        }
        let merges_at64: u64 = section64 + (last - first) as u64;
        let specials_at64: u64 = merges_at64 + 12 * (h.n_merges as u64);
        if (bytes.len() as u64) < specials_at64 {
            return Err(
                TokenizerError::Truncated { needed: cap_len(specials_at64), got: bytes.len() },
            );
        }
        let merges = read_merges(bytes, h.n_merges, merges_at64 as usize);
        assert(merges@ =~= h@.merges(bytes@));
        let end64: u64 = specials_at64 + 4 * (h.n_special as u64);
        if (bytes.len() as u64) < end64 {
            return Err(TokenizerError::Truncated { needed: cap_len(end64), got: bytes.len() });
        }
        let special_strings = read_specials(bytes, &h, &vocab, specials_at64 as usize);
        assert(vocab@.len() == texts(vocab@).len());
        let base_ids = match require_base_ids(&vocab) {
            Ok(ids) => ids,
            Err(b) => {
                return Err(TokenizerError::MissingByteChar(b));
            },
        };
        let merge_index = build_merge_index(&merges);
        proof {
            lemma_specials_no_empty(h@, bytes@, h.n_special as int);
        }
        Ok(Tokenizer { vocab, merges, merge_index, special_strings, base_ids })
    }

    pub fn vocab_size(&self) -> (r: usize)
        ensures
            r == self.model().vocab.len(),
    {
        self.vocab.len()
    }

    pub fn merges_count(&self) -> (r: usize)
        ensures
            r == self.model().merges.len(),
    {
        self.merges.len()
    }

    pub fn special_count(&self) -> (r: usize)
        ensures
            r == self.model().specials.len(),
    {
        self.special_strings.len()
    }

    /// The special text that stands at `i`: its id and its length in bytes.
    fn match_special_at(&self, bytes: &[u8], i: usize) -> (r: Option<(u32, usize)>)
        ensures
            match r {
                Some((id, n)) => self.model().special_at(bytes@, i as int, 0) == Some(
                    (id, n as int),
                ) && 0 < n && i + n <= bytes.len(),
                None => self.model().special_at(bytes@, i as int, 0) is None,
            },
    {
        proof {
            use_type_invariant(self);
        }
        let ghost m = self.model();
        let mut k: usize = 0;
        while k < self.special_strings.len()
            invariant
                k <= self.special_strings@.len(),
                m == self.model(),
                no_empty(special_texts(self.special_strings@)),
                m.special_at(bytes@, i as int, 0) == m.special_at(bytes@, i as int, k as int),
            decreases self.special_strings@.len() - k,
        {
            let t = self.special_strings[k].0.as_str().as_bytes();
            assert(m.specials[k as int] == (
                self.special_strings@[k as int].0@,
                self.special_strings@[k as int].1,
            ));
            if is_at(bytes, t, i) {
                proof {
                    lemma_nonempty_bytes(m.specials[k as int].0);
                }
                return Some((self.special_strings[k].1, t.len()));
            }
            k = k + 1;
        }
        None
    }

    /// The first place at or behind `from` where a special text stands, or the
    /// end of the input.
    fn find_next_special(&self, bytes: &[u8], from: usize) -> (r: usize)
        requires
            from <= bytes.len(),
        ensures
            r == self.model().next_special(bytes@, from as int),
            from <= r <= bytes.len(),
    {
        let mut i: usize = from;
        while i < bytes.len()
            invariant
                from <= i <= bytes.len(),
                self.model().next_special(bytes@, from as int) == self.model().next_special(
                    bytes@,
                    i as int,
                ),
            decreases bytes.len() - i,
        {
            if self.match_special_at(bytes, i).is_some() {
                return i;
            }
            i = i + 1;
        }
        i
    }

    /// The lowest merge that joins `l` and `r`.
    fn merge_for(&self, l: u32, r: u32) -> (p: Option<u32>)
        ensures
            match p {
                Some(p) => merge_of(self.model().merges, l, r) == Some(p as int) && p
                    < self.model().merges.len(),
                None => merge_of(self.model().merges, l, r) is None,
            },
    {
        proof {
            use_type_invariant(self);
            assert(index_get(self.merge_index@, l, r) == lowest_merge(
                self.merges@,
                l,
                r,
                self.merges@.len() as int,
            ));
            lemma_lowest_merge(self.merges@, l, r, self.merges@.len() as int);
        }
        match self.merge_index.get(&pack_pair(l, r)) {
            Some(p) => Some(*p),
            None => None,
        }
    }

    /// One round of merging: the pair to join and what it becomes.
    fn find_merge(&self, toks: &Vec<u32>) -> (r: Option<(usize, u32)>)
        requires
            toks@.len() >= 1,
        ensures
            match r {
                Some((pos, result)) => match best_merge(
                    self.model().merges,
                    toks@,
                    toks@.len() - 1,
                ) {
                    Some((p, at)) => at == pos && self.model().merges[p].2 == result && pos + 1
                        < toks@.len(),
                    None => false,
                },
                None => best_merge(self.model().merges, toks@, toks@.len() - 1) is None,
            },
    {
        let ghost m = self.model().merges;
        let mut best: Option<(u32, usize)> = None;
        let mut i: usize = 0;
        while i < toks.len() - 1
            invariant
                i < toks@.len(),
                m == self.model().merges,
                match best {
                    Some((p, pos)) => best_merge(m, toks@, i as int) == Some((p as int, pos as int))
                        && pos < i && p < m.len(),
                    None => best_merge(m, toks@, i as int) is None,
                },
            decreases toks@.len() - i,
        {
            match self.merge_for(toks[i], toks[i + 1]) {
                Some(p) => {
                    let better: bool = match best {
                        Some((q, _)) => p < q,
                        None => true,
                    };
                    if better {
                        best = Some((p, i));
                    }
                },
                None => {},
            }
            i = i + 1;
        }
        match best {
            Some((p, pos)) => Some((pos, self.merges[p as usize].2)),
            None => None,
        }
    }

    /// Appends the tokens of bytes without special texts.
    fn encode_chunk(&self, bytes: &[u8], out: &mut Vec<u32>)
        ensures
            final(out)@ == old(out)@ + self.model().chunk_tokens(bytes@),
    {
        proof {
            use_type_invariant(self);
        }
        let ghost m = self.model();
        let mut toks: Vec<u32> = Vec::new();
        let mut i: usize = 0;
        while i < bytes.len()
            invariant
                i <= bytes.len(),
                m == self.model(),
                self.base_ids@.len() == 256,
                forall|b: int|
                    0 <= b < 256 ==> base_id(m.vocab, b as u8) == Some(
                        #[trigger] self.base_ids@[b] as int,
                    ),
                toks@ == m.base_tokens(bytes@.subrange(0, i as int)),
            decreases bytes.len() - i,
        {
            let b: u8 = bytes[i];
            toks.push(self.base_ids[b as usize]);
            proof {
                assert(base_id(m.vocab, b) == Some(self.base_ids@[b as int] as int));
                assert(toks@ =~= m.base_tokens(bytes@.subrange(0, i + 1)));
            }
            i = i + 1;
        }
        assert(bytes@.subrange(0, i as int) =~= bytes@);
        let ghost start = toks@;
        while toks.len() >= 2
            invariant_except_break
                m == self.model(),
                bpe(m.merges, start) == bpe(m.merges, toks@),
            ensures
                bpe(m.merges, start) == toks@,
            decreases toks@.len(),
        {
            match self.find_merge(&toks) {
                Some((pos, result)) => {
                    toks.set(pos, result);
                    toks.remove(pos + 1);
                },
                None => {
                    break;
                },
            }
        }
        let ghost whole = old(out)@;
        let mut j: usize = 0;
        while j < toks.len()
            invariant
                j <= toks@.len(),
                whole == old(out)@,
                out@ == whole + toks@.subrange(0, j as int),
            decreases toks@.len() - j,
        {
            out.push(toks[j]);
            assert(toks@.subrange(0, j + 1) =~= toks@.subrange(0, j as int).push(toks@[j as int]));
            j = j + 1;
        }
        assert(toks@.subrange(0, j as int) =~= toks@);
    }

    /// The tokens of a text.
    pub fn encode(&self, text: &str) -> (out: Vec<u32>)
        ensures
            out@ == self.model().tokens_from(text.spec_bytes(), 0),
            without_specials(self.model(), text.spec_bytes()) ==> out@.len()
                <= text.spec_bytes().len() && forall|p: int, i: int|
                !#[trigger] applies(self.model().merges, out@, p, i),
    {
        proof {
            if without_specials(self.model(), text.spec_bytes()) {
                self.model().lemma_plain_tokens(text.spec_bytes());
                merging_goes_to_the_end(
                    self.model().merges,
                    self.model().base_tokens(text.spec_bytes()),
                );
            }
        }
        let mut out: Vec<u32> = Vec::new();
        let bytes = text.as_bytes();
        let ghost m = self.model();
        let ghost whole = m.tokens_from(bytes@, 0);
        let mut i: usize = 0;
        assert(out@ + whole =~= whole);
        while i < bytes.len()
            invariant
                i <= bytes.len(),
                m == self.model(),
                whole == out@ + m.tokens_from(bytes@, i as int),
            decreases bytes.len() - i,
        {
            let ghost before = out@;
            match self.match_special_at(bytes, i) {
                Some((id, n)) => {
                    out.push(id);
                    proof {
                        let rest = m.tokens_from(bytes@, i + n);
                        assert(before + (seq![id] + rest) =~= out@ + rest);
                    }
                    i = i + n;
                },
                None => {
                    let e: usize = self.find_next_special(bytes, i + 1);
                    self.encode_chunk(&bytes[i..e], &mut out);
                    proof {
                        let rest = m.tokens_from(bytes@, e as int);
                        let chunk = m.chunk_tokens(bytes@.subrange(i as int, e as int));
                        assert(before + (chunk + rest) =~= out@ + rest);
                    }
                    i = e;
                },
            }
        }
        assert(out@ + Seq::<u32>::empty() =~= out@);
        out
    }

    /// The vocabulary text of a token.
    pub fn decode(&self, token: u32) -> (r: Option<&str>)
        ensures
            match r {
                Some(t) => token < self.model().vocab.len() && t@ == self.model().vocab[token as int],
                None => token >= self.model().vocab.len(),
            },
    {
        if (token as usize) < self.vocab.len() {
            Some(self.vocab[token as usize].as_str())
        } else {
            None
        }
    }

    /// The text that a run of tokens stands for.
    pub fn decode_seq(&self, tokens: &[u32]) -> (r: String)
        ensures
            r@ == shown_text(text_bytes(self.model().text_of_tokens(tokens@))),
            forall|t: Seq<char>|
                text_bytes(self.model().text_of_tokens(tokens@)) == #[trigger] encode_utf8(t) ==> r@
                    == t,
    {
        proof {
            assert forall|t: Seq<char>|
                text_bytes(self.model().text_of_tokens(tokens@)) == #[trigger] encode_utf8(
                    t,
                ) implies shown_text(text_bytes(self.model().text_of_tokens(tokens@))) == t by {
                bytes_are_shown(t, Seq::empty());
            }
        }
        let ghost m = self.model();
        let mut concat = String::new();
        let mut i: usize = 0;
        assert(m.text_of_tokens(tokens@.subrange(0, 0)) =~= Seq::<char>::empty());
        while i < tokens.len()
            invariant
                i <= tokens.len(),
                m == self.model(),
                concat@ == m.text_of_tokens(tokens@.subrange(0, i as int)),
            decreases tokens.len() - i,
        {
            proof {
                assert(tokens@.subrange(0, i + 1).drop_last() =~= tokens@.subrange(0, i as int));
            }
            match self.decode(tokens[i]) {
                Some(t) => {
                    concat.push_str(t);
                },
                None => {
                    assert(concat@ + Seq::<char>::empty() =~= concat@);
                },
            }
            i = i + 1;
        }
        assert(tokens@.subrange(0, i as int) =~= tokens@);
        let mut out: Vec<u8> = Vec::new();
        let text = concat.as_str();
        let ghost all = text@;
        assert(text_bytes(all.subrange(0, 0)) =~= Seq::<u8>::empty());
        for c in it: text.chars()
            invariant
                all == text@,
                it.seq() == all,
                out@ == text_bytes(all.subrange(0, it.index())),
        {
            proof {
                let j = it.index();
                assert(all.subrange(0, j + 1).drop_last() =~= all.subrange(0, j));
                assert(all.subrange(0, j + 1).last() == c);
                assert(text_bytes(all.subrange(0, j + 1)) == text_bytes(all.subrange(0, j))
                    + char_bytes(c));
            }
            push_char_bytes(&mut out, c);
        }
        assert(all.subrange(0, all.len() as int) =~= all);
        match core::str::from_utf8(&out) {
            Ok(t) => {
                proof {
                    encode_utf8_decode_utf8(t@);
                }
                t.to_owned()
            },
            Err(_) => from_utf8_lossy(&out),
        }
    }
}

// ---------------------------------------------------------------------
// Decoding undoes encoding
// ---------------------------------------------------------------------

impl TokModel {
    /// The bytes that a token stands for.
    pub open spec fn token_bytes(self, id: u32) -> Seq<u8> {
        text_bytes(self.token_text(id))
    }

    /// Every merge joins two tokens into one that stands for the bytes of both.
    pub open spec fn merges_join(self) -> bool {
        forall|p: int|
            0 <= p < self.merges.len() ==> {
                let (l, r, x) = #[trigger] self.merges[p];
                self.token_bytes(x) == self.token_bytes(l) + self.token_bytes(r)
            }
    }

    /// Every special token stands for the bytes of its own text.
    pub open spec fn specials_plain(self) -> bool {
        forall|i: int|
            0 <= i < self.specials.len() ==> text_bytes((#[trigger] self.specials[i]).0)
                == encode_utf8(self.specials[i].0)
    }

    /// Special texts are not empty, and are the texts of their tokens.
    spec fn specials_match(self) -> bool {
        forall|i: int|
            0 <= i < self.specials.len() ==> {
                let (t, id) = #[trigger] self.specials[i];
                id < self.vocab.len() && self.vocab[id as int] == t && t.len() > 0
            }
    }

    proof fn lemma_text_append(self, a: Seq<u32>, b: Seq<u32>)
        ensures
            self.text_of_tokens(a + b) == self.text_of_tokens(a) + self.text_of_tokens(b),
        decreases b.len(),
    {
        if b.len() == 0 {
            assert(a + b =~= a);
        } else {
            self.lemma_text_append(a, b.drop_last());
            assert((a + b).drop_last() =~= a + b.drop_last());
        }
    }

    proof fn lemma_join_keeps_bytes(self, toks: Seq<u32>, pos: int, x: u32)
        requires
            0 <= pos,
            pos + 1 < toks.len(),
            self.token_bytes(x) == self.token_bytes(toks[pos]) + self.token_bytes(toks[pos + 1]),
        ensures
            text_bytes(self.text_of_tokens(join_at(toks, pos, x))) == text_bytes(
                self.text_of_tokens(toks),
            ),
    {
        let a = toks.subrange(0, pos);
        let b = toks.subrange(pos + 2, toks.len() as int);
        let l = seq![toks[pos]];
        let r = seq![toks[pos + 1]];
        let one = seq![x];
        assert(toks =~= a + (l + r) + b);
        assert(join_at(toks, pos, x) =~= a + one + b);
        self.lemma_text_append(a + (l + r), b);
        self.lemma_text_append(a, l + r);
        self.lemma_text_append(l, r);
        self.lemma_text_append(a + one, b);
        self.lemma_text_append(a, one);
        assert(l.drop_last() =~= Seq::<u32>::empty());
        assert(r.drop_last() =~= Seq::<u32>::empty());
        assert(one.drop_last() =~= Seq::<u32>::empty());
        assert(self.text_of_tokens(Seq::<u32>::empty()) =~= Seq::<char>::empty());
        assert(self.text_of_tokens(l) =~= self.token_text(toks[pos]));
        assert(self.text_of_tokens(r) =~= self.token_text(toks[pos + 1]));
        assert(self.text_of_tokens(one) =~= self.token_text(x));
        let ta = self.text_of_tokens(a);
        let tb = self.text_of_tokens(b);
        let tl = self.token_text(toks[pos]);
        let tr = self.token_text(toks[pos + 1]);
        let tx = self.token_text(x);
        lemma_text_bytes_append(ta + (tl + tr), tb);
        lemma_text_bytes_append(ta, tl + tr);
        lemma_text_bytes_append(tl, tr);
        lemma_text_bytes_append(ta + tx, tb);
        lemma_text_bytes_append(ta, tx);
    }

    proof fn lemma_bpe_keeps_bytes(self, toks: Seq<u32>)
        requires
            self.merges_join(),
        ensures
            text_bytes(self.text_of_tokens(bpe(self.merges, toks))) == text_bytes(
                self.text_of_tokens(toks),
            ),
        decreases toks.len(),
    {
        if toks.len() > 0 {
            best_merge_is_lowest(self.merges, toks, toks.len() - 1);
            match best_merge(self.merges, toks, toks.len() - 1) {
                None => {},
                Some((p, pos)) => {
                    self.lemma_join_keeps_bytes(toks, pos, self.merges[p].2);
                    self.lemma_bpe_keeps_bytes(join_at(toks, pos, self.merges[p].2));
                },
            }
        }
    }

    proof fn lemma_base_tokens(self, s: Seq<u8>)
        requires
            self.vocab.len() <= u32::MAX,
            forall|b: u8| (#[trigger] base_id(self.vocab, b)) is Some,
        ensures
            text_bytes(self.text_of_tokens(self.base_tokens(s))) == s,
        decreases s.len(),
    {
        let toks = self.base_tokens(s);
        if s.len() == 0 {
            assert(text_bytes(self.text_of_tokens(toks)) =~= s);
        } else {
            let b = s.last();
            self.lemma_base_tokens(s.drop_last());
            assert(toks.drop_last() =~= self.base_tokens(s.drop_last()));
            assert(base_id(self.vocab, b) is Some);
            lemma_last_id(self.vocab, byte_text(b), self.vocab.len() as int);
            let id = base_id(self.vocab, b)->0;
            assert(toks.last() == id as u32);
            assert(self.token_text(toks.last()) == byte_text(b));
            lemma_text_bytes_append(self.text_of_tokens(toks.drop_last()), byte_text(b));
            lemma_byte_text(b);
            assert(text_bytes(self.text_of_tokens(toks)) =~= s.drop_last().push(b));
            assert(s.drop_last().push(b) =~= s);
        }
    }

    #[verifier::rlimit(40)]
    proof fn lemma_tokens_from(self, s: Seq<u8>, i: int)
        requires
            0 <= i <= s.len(),
            self.vocab.len() <= u32::MAX,
            self.merges_join(),
            self.specials_plain(),
            self.specials_match(),
            forall|b: u8| (#[trigger] base_id(self.vocab, b)) is Some,
        ensures
            text_bytes(self.text_of_tokens(self.tokens_from(s, i))) == s.subrange(
                i,
                s.len() as int,
            ),
        decreases s.len() - i,
    {
        let toks = self.tokens_from(s, i);
        let rest = s.subrange(i, s.len() as int);
        if i >= s.len() {
            assert(text_bytes(self.text_of_tokens(toks)) =~= rest);
        } else {
            self.lemma_special_at(s, i, 0);
            match self.special_at(s, i, 0) {
                Some((id, n)) => {
                    let j = choose|j: int|
                        0 <= j < self.specials.len() && #[trigger] self.specials[j].1 == id
                            && byte_len(self.specials[j].0) == n && occurs_at(
                            s,
                            encode_utf8(self.specials[j].0),
                            i,
                        );
                    let t = self.specials[j].0;
                    lemma_nonempty_bytes(t);
                    self.lemma_tokens_from(s, i + n);
                    let head = seq![id];
                    self.lemma_text_append(head, self.tokens_from(s, i + n));
                    assert(head.drop_last() =~= Seq::<u32>::empty());
                    assert(self.text_of_tokens(Seq::<u32>::empty()) =~= Seq::<char>::empty());
                    assert(self.text_of_tokens(head) =~= t);
                    lemma_text_bytes_append(t, self.text_of_tokens(self.tokens_from(s, i + n)));
                    assert(text_bytes(t) == encode_utf8(t));
                    assert(rest =~= s.subrange(i, i + n) + s.subrange(i + n, s.len() as int));
                },
                None => {
                    let e = self.next_special(s, i + 1);
                    self.lemma_next_special(s, i + 1);
                    self.lemma_tokens_from(s, e);
                    let chunk = s.subrange(i, e);
                    self.lemma_bpe_keeps_bytes(self.base_tokens(chunk));
                    self.lemma_base_tokens(chunk);
                    self.lemma_text_append(self.chunk_tokens(chunk), self.tokens_from(s, e));
                    lemma_text_bytes_append(
                        self.text_of_tokens(self.chunk_tokens(chunk)),
                        self.text_of_tokens(self.tokens_from(s, e)),
                    );
                    assert(rest =~= chunk + s.subrange(e, s.len() as int));
                },
            }
        }
    }
}

proof fn lemma_text_bytes_append(a: Seq<char>, b: Seq<char>)
    ensures
        text_bytes(a + b) == text_bytes(a) + text_bytes(b),
    decreases b.len(),
{
    if b.len() == 0 {
        assert(a + b =~= a);
    } else {
        lemma_text_bytes_append(a, b.drop_last());
        assert((a + b).drop_last() =~= a + b.drop_last());
    }
}

proof fn lemma_byte_text(b: u8)
    ensures
        text_bytes(byte_text(b)) == seq![b],
{
    byte_map_round_trip(b);
    let t = byte_text(b);
    assert(t[0] as int == byte_codepoint(b as int));
    assert(t.drop_last() =~= Seq::<char>::empty());
    assert(text_bytes(t.drop_last()) =~= Seq::<u8>::empty());
    assert(text_bytes(t) =~= seq![b]);
}

/// An ASCII text stands for its own bytes.
pub proof fn ascii_texts_are_plain(t: Seq<char>)
    requires
        is_ascii_chars(t),
    ensures
        text_bytes(t) == encode_utf8(t),
{
    is_ascii_chars_encode_utf8(t);
    lemma_ascii_text_bytes_each(t);
    assert(text_bytes(t) =~= encode_utf8(t));
}

proof fn lemma_ascii_text_bytes_each(t: Seq<char>)
    requires
        is_ascii_chars(t),
    ensures
        text_bytes(t) == Seq::new(t.len(), |i: int| t[i] as u8),
    decreases t.len(),
{
    let want = Seq::new(t.len(), |i: int| t[i] as u8);
    if t.len() == 0 {
        assert(text_bytes(t) =~= want);
    } else {
        let c = t.last();
        let before = t.drop_last();
        assert forall|i: int| 0 <= i < before.len() implies '\0' <= #[trigger] before[i]
            <= '\u{7f}' by {
            assert(before[i] == t[i]);
        }
        lemma_ascii_text_bytes_each(before);
        assert('\0' <= t[t.len() - 1] <= '\u{7f}');
        let one = seq![c];
        assert(is_ascii_chars(one));
        is_ascii_chars_encode_utf8(one);
        assert(encode_utf8(one)[0] == one[0] as u8);
        assert(char_bytes(c) =~= seq![c as u8]);
        assert(text_bytes(t) =~= want);
    }
}

proof fn lemma_missing_byte(vocab: Seq<Seq<char>>, from: int, b: u8)
    requires
        missing_byte(vocab, from) is None,
        0 <= from <= b,
    ensures
        base_id(vocab, b) is Some,
    decreases b - from,
{
    if from < b {
        lemma_missing_byte(vocab, from + 1, b);
    } else {
        assert(from as u8 == b);
    }
}

proof fn lemma_specials_match(h: TokHeader, s: Seq<u8>, k: int)
    ensures
        forall|i: int|
            0 <= i < h.specials(s, k).len() ==> {
                let (t, id) = #[trigger] h.specials(s, k)[i];
                id < h.n_tokens && h.vocab(s)[id as int] == t && t.len() > 0
            },
    decreases k,
{
    if k > 0 {
        lemma_specials_match(h, s, k - 1);
        let before = h.specials(s, k - 1);
        let id = h.special_id(s, k - 1);
        if id < h.n_tokens && h.vocab(s)[id as int].len() > 0 {
            let e = (h.vocab(s)[id as int], id);
            lemma_longer_prefix_bound(before, byte_len(e.0));
            let at = longer_prefix(before, byte_len(e.0)) as int;
            let after = before.insert(at, e);
            assert forall|i: int| 0 <= i < after.len() implies {
                let (t, id) = #[trigger] after[i];
                id < h.n_tokens && h.vocab(s)[id as int] == t && t.len() > 0
            } by {
                if i < at {
                    assert(after[i] == before[i]);
                } else if i > at {
                    assert(after[i] == before[i - 1]);
                }
            }
        }
    }
}

/// Decoding the tokens of a text gives the text back, for every text and every
/// tokenizer file whose merges join bytes and whose special tokens stand for
/// their own texts.
#[verifier::rlimit(40)]
pub proof fn decode_undoes_encode(file: Seq<u8>, m: TokModel, text: Seq<char>)
    requires
        model_of(file) == Ok::<TokModel, TokenizerError>(m),
        m.merges_join(),
        m.specials_plain(),
    ensures
        shown_text(text_bytes(m.text_of_tokens(m.tokens_from(encode_utf8(text), 0)))) == text,
{
    let h = header_of(file)->Ok_0;
    lemma_specials_match(h, file, h.n_special);
    assert(m.specials_match());
    assert forall|b: u8| (#[trigger] base_id(m.vocab, b)) is Some by {
        lemma_missing_byte(m.vocab, 0, b);
    }
    let s = encode_utf8(text);
    assert(le32(file, 8) <= u32::MAX);
    m.lemma_tokens_from(s, 0);
    assert(s.subrange(0, s.len() as int) =~= s);
    encode_utf8_valid_utf8(text);
    encode_utf8_decode_utf8(text);
}

/// Longer texts first.
spec fn longest_first(list: Seq<(Seq<char>, u32)>) -> bool {
    forall|i: int, j: int|
        0 <= i <= j < list.len() ==> byte_len((#[trigger] list[i]).0) >= byte_len(
            (#[trigger] list[j]).0,
        )
}

proof fn lemma_longer_prefix_splits(list: Seq<(Seq<char>, u32)>, n: nat)
    ensures
        longer_prefix(list, n) <= list.len(),
        forall|i: int|
            0 <= i < longer_prefix(list, n) ==> byte_len((#[trigger] list[i]).0) >= n,
        longer_prefix(list, n) < list.len() ==> byte_len(list[longer_prefix(list, n) as int].0) < n,
    decreases list.len(),
{
    if list.len() > 0 && byte_len(list[0].0) >= n {
        let rest = list.drop_first();
        lemma_longer_prefix_splits(rest, n);
        assert forall|i: int| 0 <= i < longer_prefix(list, n) implies byte_len(
            (#[trigger] list[i]).0,
        ) >= n by {
            if i > 0 {
                assert(rest[i - 1] == list[i]);
            }
        }
    }
}

proof fn lemma_specials_longest_first(h: TokHeader, s: Seq<u8>, k: int)
    ensures
        longest_first(h.specials(s, k)),
    decreases k,
{
    if k > 0 {
        lemma_specials_longest_first(h, s, k - 1);
        let before = h.specials(s, k - 1);
        let id = h.special_id(s, k - 1);
        if id < h.n_tokens && h.vocab(s)[id as int].len() > 0 {
            let e = (h.vocab(s)[id as int], id);
            let n = byte_len(e.0);
            lemma_longer_prefix_splits(before, n);
            let at = longer_prefix(before, n) as int;
            let after = before.insert(at, e);
            assert forall|i: int, j: int| 0 <= i <= j < after.len() implies byte_len(
                (#[trigger] after[i]).0,
            ) >= byte_len((#[trigger] after[j]).0) by {
                let bi = if i < at { i } else { i - 1 };
                let bj = if j < at { j } else { j - 1 };
                if i != at {
                    assert(after[i] == before[bi]);
                }
                if j != at {
                    assert(after[j] == before[bj]);
                }
                if i == at && j > at {
                    assert(byte_len(before[at].0) >= byte_len(before[bj].0));
                }
            }
        }
    }
}

proof fn lemma_special_at_first(m: TokModel, s: Seq<u8>, i: int, k: int, j: int)
    requires
        0 <= k <= j < m.specials.len(),
        longest_first(m.specials),
        occurs_at(s, encode_utf8(m.specials[j].0), i),
    ensures
        m.special_at(s, i, k) matches Some((_, n)) && n >= byte_len(m.specials[j].0),
    decreases j - k,
{
    if !occurs_at(s, encode_utf8(m.specials[k].0), i) {
        lemma_special_at_first(m, s, i, k + 1, j);
    }
}

/// Where several special texts stand at one place, the longest is taken.
pub proof fn longest_special_wins(file: Seq<u8>, m: TokModel, s: Seq<u8>, i: int, j: int)
    requires
        model_of(file) == Ok::<TokModel, TokenizerError>(m),
        0 <= j < m.specials.len(),
        occurs_at(s, encode_utf8(m.specials[j].0), i),
    ensures
        m.special_at(s, i, 0) matches Some((_, n)) && n >= byte_len(m.specials[j].0),
{
    let h = header_of(file)->Ok_0;
    lemma_specials_longest_first(h, file, h.n_special);
    lemma_special_at_first(m, s, i, 0, j);
}

// ---------------------------------------------------------------------
// Special tokens cut the text
// ---------------------------------------------------------------------

proof fn lemma_encode_concat(a: Seq<char>, b: Seq<char>)
    ensures
        encode_utf8(a + b) == encode_utf8(a) + encode_utf8(b),
    decreases a.len(),
{
    if a.len() == 0 {
        assert(a + b =~= b);
        assert(encode_utf8(a) + encode_utf8(b) =~= encode_utf8(b));
    } else {
        assert((a + b).drop_first() =~= a.drop_first() + b);
        lemma_encode_concat(a.drop_first(), b);
        assert(encode_utf8(a + b) =~= encode_utf8(a) + encode_utf8(b));
    }
}

impl TokModel {
    /// What stands behind a place does not depend on what stands before it.
    proof fn lemma_special_shift(self, p: Seq<u8>, q: Seq<u8>, i: int, k: int)
        requires
            0 <= i,
        ensures
            self.special_at(p + q, p.len() + i, k) == self.special_at(q, i, k),
        decreases self.specials.len() - k,
    {
        if k < self.specials.len() {
            let t = encode_utf8(self.specials[k].0);
            if i + t.len() <= q.len() {
                assert((p + q).subrange(p.len() + i, p.len() + i + t.len()) =~= q.subrange(
                    i,
                    i + t.len(),
                ));
            }
            self.lemma_special_shift(p, q, i, k + 1);
        }
    }

    proof fn lemma_next_shift(self, p: Seq<u8>, q: Seq<u8>, i: int)
        requires
            0 <= i,
        ensures
            self.next_special(p + q, p.len() + i) == p.len() + self.next_special(q, i),
        decreases q.len() - i,
    {
        self.lemma_special_shift(p, q, i, 0);
        if i < q.len() && self.special_at(q, i, 0) is None {
            self.lemma_next_shift(p, q, i + 1);
        }
    }

    proof fn lemma_tokens_shift(self, p: Seq<u8>, q: Seq<u8>, i: int)
        requires
            0 <= i,
        ensures
            self.tokens_from(p + q, p.len() + i) == self.tokens_from(q, i),
        decreases q.len() - i,
    {
        if i < q.len() {
            self.lemma_special_shift(p, q, i, 0);
            self.lemma_special_at(q, i, 0);
            match self.special_at(q, i, 0) {
                Some((_, n)) => {
                    if n > 0 {
                        self.lemma_tokens_shift(p, q, i + n);
                    }
                },
                None => {
                    self.lemma_next_shift(p, q, i + 1);
                    self.lemma_next_special(q, i + 1);
                    let e = self.next_special(q, i + 1);
                    assert((p + q).subrange(p.len() + i, p.len() + e) =~= q.subrange(i, e));
                    self.lemma_tokens_shift(p, q, e);
                },
            }
        }
    }

    /// Up to the first special text there is none.
    proof fn lemma_next_is(self, s: Seq<u8>, i: int, e: int)
        requires
            0 <= i <= e <= s.len(),
            forall|j: int| i <= j < e ==> (#[trigger] self.special_at(s, j, 0)) is None,
            e == s.len() || self.special_at(s, e, 0) is Some,
        ensures
            self.next_special(s, i) == e,
        decreases e - i,
    {
        if i < e {
            assert(self.special_at(s, i, 0) is None);
            self.lemma_next_is(s, i + 1, e);
        }
    }

    /// A special text in the front stands there in the whole as well.
    proof fn lemma_special_in_front(self, p: Seq<u8>, q: Seq<u8>, i: int, k: int)
        requires
            self.special_at(p + q, i, k) is None,
        ensures
            self.special_at(p, i, k) is None,
        decreases self.specials.len() - k,
    {
        if k < self.specials.len() {
            let t = encode_utf8(self.specials[k].0);
            if occurs_at(p, t, i) {
                assert((p + q).subrange(i, i + t.len()) =~= p.subrange(i, i + t.len()));
            }
            self.lemma_special_in_front(p, q, i, k + 1);
        }
    }
}

/// Encoding cuts a text at its first special text: what stands before it and
/// what stands behind it are encoded by themselves, and its token stands
/// between. `e` is its entry in the list; no special text begins before it, and
/// no longer one where it begins.
#[verifier::rlimit(40)]
pub proof fn specials_cut_the_text(m: TokModel, a: Seq<char>, e: int, b: Seq<char>)
    requires
        0 <= e < m.specials.len(),
        m.specials[e].0.len() > 0,
        ({
            let s = encode_utf8(a + m.specials[e].0 + b);
            let n = encode_utf8(a).len() as int;
            &&& forall|i: int| 0 <= i < n ==> (#[trigger] m.special_at(s, i, 0)) is None
            &&& m.special_at(s, n, 0) == Some(
                (m.specials[e].1, encode_utf8(m.specials[e].0).len() as int),
            )
        }),
    ensures
        m.tokens_from(encode_utf8(a + m.specials[e].0 + b), 0) == m.tokens_from(encode_utf8(a), 0)
            + seq![m.specials[e].1] + m.tokens_from(encode_utf8(b), 0),
{
    let p = encode_utf8(a);
    let t = encode_utf8(m.specials[e].0);
    let q = encode_utf8(b);
    let s = encode_utf8(a + m.specials[e].0 + b);
    let n = p.len() as int;
    lemma_encode_concat(a, m.specials[e].0);
    lemma_encode_concat(a + m.specials[e].0, b);
    lemma_nonempty_bytes(m.specials[e].0);
    assert(s == p + t + q);
    m.lemma_tokens_shift(p + t, q, 0);
    assert(m.tokens_from(s, n) == seq![m.specials[e].1] + m.tokens_from(q, 0));
    if n > 0 {
        assert(m.special_at(s, 0, 0) is None);
        m.lemma_next_is(s, 1, n);
        assert(s.subrange(0, n) =~= p);
        assert(s =~= p + (t + q));
        assert forall|i: int| 0 <= i < n implies (#[trigger] m.special_at(p, i, 0)) is None by {
            assert(m.special_at(s, i, 0) is None);
            m.lemma_special_in_front(p, t + q, i, 0);
        }
        assert(m.special_at(p, 0, 0) is None);
        m.lemma_next_is(p, 1, n);
        assert(p.subrange(0, n) =~= p);
        assert(m.tokens_from(p, n) =~= Seq::<u32>::empty());
        assert(m.tokens_from(p, 0) =~= m.chunk_tokens(p));
    }
    assert(m.tokens_from(s, 0) =~= m.tokens_from(p, 0) + seq![m.specials[e].1] + m.tokens_from(
        q,
        0,
    ));
}

// ---------------------------------------------------------------------
// What encoding means
// ---------------------------------------------------------------------

/// Whether merge `p` applies at place `i`.
pub open spec fn applies(merges: Seq<(u32, u32, u32)>, toks: Seq<u32>, p: int, i: int) -> bool {
    0 <= p < merges.len() && 0 <= i && i + 1 < toks.len() && merges[p].0 == toks[i] && merges[p].1
        == toks[i + 1]
}

/// Whether `b` comes from `a` by merge `p` at place `i`: no merge with a lower
/// index applies anywhere, and this one applies nowhere further left.
pub open spec fn one_merge(
    merges: Seq<(u32, u32, u32)>,
    a: Seq<u32>,
    b: Seq<u32>,
    p: int,
    i: int,
) -> bool {
    &&& applies(merges, a, p, i)
    &&& forall|q: int, j: int| #[trigger] applies(merges, a, q, j) ==> p < q || (p == q && i <= j)
    &&& b == a.subrange(0, i) + seq![merges[p].2] + a.subrange(i + 2, a.len() as int)
}

/// Whether `b` comes from `a` by one merge.
pub open spec fn follows(merges: Seq<(u32, u32, u32)>, a: Seq<u32>, b: Seq<u32>) -> bool {
    exists|p: int, i: int| one_merge(merges, a, b, p, i)
}

/// Whether the sequences follow from each other by one merge each, and no merge
/// applies to the last.
pub open spec fn merges_stepwise(merges: Seq<(u32, u32, u32)>, trace: Seq<Seq<u32>>) -> bool {
    &&& trace.len() > 0
    &&& forall|k: int|
        0 <= k && k + 1 < trace.len() ==> follows(merges, #[trigger] trace[k], trace[k + 1])
    &&& forall|p: int, i: int| !applies(merges, trace.last(), p, i)
}

/// Whether a token is the last one of the vocabulary whose text is the one
/// character of a byte.
pub open spec fn is_byte_token(vocab: Seq<Seq<char>>, b: u8, t: u32) -> bool {
    &&& t < vocab.len()
    &&& vocab[t as int] == byte_text(b)
    &&& forall|j: int| t < j < vocab.len() ==> #[trigger] vocab[j] != byte_text(b)
}

/// Whether no special text stands anywhere in some bytes.
pub open spec fn without_specials(m: TokModel, s: Seq<u8>) -> bool {
    forall|j: int, i: int|
        0 <= j < m.specials.len() && 0 <= i && i + encode_utf8(m.specials[j].0).len() <= s.len()
            ==> #[trigger] s.subrange(i, i + encode_utf8((#[trigger] m.specials[j]).0).len())
            != encode_utf8(m.specials[j].0)
}

/// Whether every byte has a token of its own.
pub open spec fn has_byte_tokens(vocab: Seq<Seq<char>>) -> bool {
    forall|b: u8| exists|j: int| 0 <= j < vocab.len() && vocab[j] == #[trigger] byte_text(b)
}

proof fn lemma_best_is_one_merge(merges: Seq<(u32, u32, u32)>, toks: Seq<u32>)
    requires
        toks.len() > 0,
    ensures
        match best_merge(merges, toks, toks.len() - 1) {
            Some((p, i)) => one_merge(merges, toks, join_at(toks, i, merges[p].2), p, i),
            None => forall|p: int, i: int| !applies(merges, toks, p, i),
        },
{
    best_merge_is_lowest(merges, toks, toks.len() - 1);
    match best_merge(merges, toks, toks.len() - 1) {
        Some((p, i)) => {
            assert forall|q: int, j: int| #[trigger] applies(merges, toks, q, j) implies p < q || (p
                == q && i <= j) by {
                lemma_lowest_is_first(merges, toks[j], toks[j + 1], merges.len() as int, q);
                assert(merge_of(merges, toks[j], toks[j + 1]) is Some);
            }
            assert(join_at(toks, i, merges[p].2) =~= toks.subrange(0, i) + seq![merges[p].2]
                + toks.subrange(i + 2, toks.len() as int));
        },
        None => {
            assert forall|p: int, i: int| !applies(merges, toks, p, i) by {
                if applies(merges, toks, p, i) {
                    lemma_lowest_is_first(merges, toks[i], toks[i + 1], merges.len() as int, p);
                    assert(merge_of(merges, toks[i], toks[i + 1]) is Some);
                }
            }
        },
    }
}

proof fn lemma_lowest_is_first(merges: Seq<(u32, u32, u32)>, l: u32, r: u32, k: int, q: int)
    requires
        0 <= q < k <= merges.len(),
        merges[q].0 == l,
        merges[q].1 == r,
    ensures
        lowest_merge(merges, l, r, k) matches Some(p) && p <= q,
    decreases k,
{
    if q < k - 1 {
        lemma_lowest_is_first(merges, l, r, k - 1, q);
    } else {
        lemma_lowest_merge(merges, l, r, k - 1);
    }
}

#[verifier::rlimit(40)]
proof fn lemma_bpe_trace(merges: Seq<(u32, u32, u32)>, toks: Seq<u32>) -> (trace: Seq<Seq<u32>>)
    ensures
        merges_stepwise(merges, trace),
        trace[0] == toks,
        trace.last() == bpe(merges, toks),
    decreases toks.len(),
{
    if toks.len() == 0 {
        seq![toks]
    } else {
        lemma_best_is_one_merge(merges, toks);
        match best_merge(merges, toks, toks.len() - 1) {
            None => seq![toks],
            Some((p, i)) => {
                let next = join_at(toks, i, merges[p].2);
                let rest = lemma_bpe_trace(merges, next);
                let trace = seq![toks] + rest;
                assert(trace[0] == toks);
                assert(trace[1] == next);
                assert forall|k: int| 0 <= k && k + 1 < trace.len() implies follows(
                    merges,
                    #[trigger] trace[k],
                    trace[k + 1],
                ) by {
                    if k == 0 {
                        assert(one_merge(merges, trace[0], trace[1], p, i));
                    } else {
                        assert(trace[k] == rest[k - 1] && trace[k + 1] == rest[k]);
                    }
                }
                assert(trace.last() == rest.last());
                trace
            },
        }
    }
}

impl TokModel {
    proof fn lemma_no_special_at(self, s: Seq<u8>, i: int, k: int)
        requires
            0 <= k,
            without_specials(self, s),
        ensures
            self.special_at(s, i, k) is None,
        decreases self.specials.len() - k,
    {
        if k < self.specials.len() {
            let t = encode_utf8(self.specials[k].0);
            if 0 <= i && i + t.len() <= s.len() {
                assert(s.subrange(i, i + encode_utf8(self.specials[k].0).len()) != t);
            }
            self.lemma_no_special_at(s, i, k + 1);
        }
    }

    proof fn lemma_plain_tokens(self, s: Seq<u8>)
        requires
            without_specials(self, s),
        ensures
            self.tokens_from(s, 0) == bpe(self.merges, self.base_tokens(s)),
    {
        if s.len() > 0 {
            assert forall|j: int| (#[trigger] self.special_at(s, j, 0)) is None by {
                self.lemma_no_special_at(s, j, 0);
            }
            self.lemma_next_is(s, 1, s.len() as int);
            assert(self.special_at(s, 0, 0) is None);
            assert(s.subrange(0, s.len() as int) =~= s);
            assert(self.tokens_from(s, s.len() as int) =~= Seq::<u32>::empty());
            assert(self.tokens_from(s, 0) =~= self.chunk_tokens(s));
        } else {
            assert(self.base_tokens(s) =~= Seq::<u32>::empty());
            assert(self.tokens_from(s, 0) =~= Seq::<u32>::empty());
        }
    }
}

proof fn lemma_byte_token(vocab: Seq<Seq<char>>, b: u8)
    requires
        vocab.len() <= u32::MAX,
        has_byte_tokens(vocab),
    ensures
        base_id(vocab, b) is Some,
        is_byte_token(vocab, b, base_id(vocab, b)->0 as u32),
{
    let t = byte_text(b);
    let j = choose|j: int| 0 <= j < vocab.len() && vocab[j] == byte_text(b);
    lemma_last_is_last(vocab, t, vocab.len() as int, j);
}

proof fn lemma_last_is_last(vocab: Seq<Seq<char>>, t: Seq<char>, k: int, j: int)
    requires
        0 <= j < k <= vocab.len(),
        vocab[j] == t,
    ensures
        last_id(vocab, t, k) matches Some(i) && 0 <= i < k && vocab[i] == t && forall|n: int|
            i < n < k ==> #[trigger] vocab[n] != t,
    decreases k,
{
    if vocab[k - 1] != t {
        lemma_last_is_last(vocab, t, k - 1, j);
    }
}

/// A text without special texts, however long, is encoded by merging: it starts
/// from one token per byte, applies the merge with the lowest index at its
/// leftmost place as long as one applies, and ends where none does.
#[verifier::rlimit(40)]
pub proof fn plain_text_is_merged(m: TokModel, s: Seq<u8>)
    requires
        without_specials(m, s),
        m.vocab.len() <= u32::MAX,
        has_byte_tokens(m.vocab),
    ensures
        exists|trace: Seq<Seq<u32>>|
            {
                &&& #[trigger] merges_stepwise(m.merges, trace)
                &&& trace[0].len() == s.len()
                &&& forall|i: int| 0 <= i < s.len() ==> is_byte_token(m.vocab, s[i], #[trigger] trace[0][i])
                &&& trace.last() == m.tokens_from(s, 0)
            },
        forall|p: int, i: int| !applies(m.merges, m.tokens_from(s, 0), p, i),
        m.tokens_from(s, 0).len() <= s.len(),
        s.len() > 0 ==> m.tokens_from(s, 0).len() > 0,
{
    m.lemma_plain_tokens(s);
    let start = m.base_tokens(s);
    let trace = lemma_bpe_trace(m.merges, start);
    assert forall|i: int| 0 <= i < s.len() implies is_byte_token(m.vocab, s[i], #[trigger] trace[0][i]) by {
        lemma_byte_token(m.vocab, s[i]);
    }
    assert(trace.last() == m.tokens_from(s, 0));
    merging_goes_to_the_end(m.merges, start);
}

/// Without any merges every byte stays its own token.
pub proof fn without_merges_bytes_stay(m: TokModel, s: Seq<u8>)
    requires
        without_specials(m, s),
        m.merges.len() == 0,
        m.vocab.len() <= u32::MAX,
        has_byte_tokens(m.vocab),
    ensures
        m.tokens_from(s, 0).len() == s.len(),
        forall|i: int| 0 <= i < s.len() ==> is_byte_token(m.vocab, s[i], #[trigger] m.tokens_from(s, 0)[i]),
{
    m.lemma_plain_tokens(s);
    let start = m.base_tokens(s);
    lemma_no_merges(start, start.len() - 1);
    assert forall|i: int| 0 <= i < s.len() implies is_byte_token(m.vocab, s[i], #[trigger] m.tokens_from(s, 0)[i]) by {
        lemma_byte_token(m.vocab, s[i]);
    }
}

proof fn lemma_no_merges(toks: Seq<u32>, k: int)
    ensures
        best_merge(Seq::empty(), toks, k) is None,
    decreases k,
{
    if k > 0 {
        lemma_no_merges(toks, k - 1);
    }
}

/// Every special text that stands somewhere is seen there, and what is seen
/// stands there.
pub proof fn specials_are_seen(m: TokModel, s: Seq<u8>, i: int)
    requires
        0 <= i,
    ensures
        m.special_at(s, i, 0) is None <==> forall|j: int|
            0 <= j < m.specials.len() ==> !(i + encode_utf8((#[trigger] m.specials[j]).0).len()
                <= s.len() && s.subrange(i, i + encode_utf8(m.specials[j].0).len()) == encode_utf8(
                m.specials[j].0,
            )),
        m.special_at(s, i, 0) matches Some((id, n)) ==> exists|j: int|
            0 <= j < m.specials.len() && (#[trigger] m.specials[j]).1 == id && encode_utf8(
                m.specials[j].0,
            ).len() == n && s.subrange(i, i + n) == encode_utf8(m.specials[j].0) && forall|e: int|
                0 <= e < j ==> !(i + encode_utf8((#[trigger] m.specials[e]).0).len() <= s.len()
                    && s.subrange(i, i + encode_utf8(m.specials[e].0).len()) == encode_utf8(
                    m.specials[e].0,
                )),
{
    lemma_seen_from(m, s, i, 0);
}

#[verifier::rlimit(40)]
proof fn lemma_seen_from(m: TokModel, s: Seq<u8>, i: int, k: int)
    requires
        0 <= i,
        0 <= k,
    ensures
        match m.special_at(s, i, k) {
            None => forall|j: int|
                k <= j < m.specials.len() ==> !(i + encode_utf8((#[trigger] m.specials[j]).0).len()
                    <= s.len() && s.subrange(i, i + encode_utf8(m.specials[j].0).len())
                    == encode_utf8(m.specials[j].0)),
            Some((id, n)) => exists|j: int|
                k <= j < m.specials.len() && (#[trigger] m.specials[j]).1 == id && i + n <= s.len()
                    && encode_utf8(m.specials[j].0).len() == n && s.subrange(i, i + n)
                    == encode_utf8(m.specials[j].0) && forall|e: int|
                    k <= e < j ==> !(i + encode_utf8((#[trigger] m.specials[e]).0).len() <= s.len()
                        && s.subrange(i, i + encode_utf8(m.specials[e].0).len()) == encode_utf8(
                        m.specials[e].0,
                    )),
        },
    decreases m.specials.len() - k,
{
    if k < m.specials.len() {
        if occurs_at(s, encode_utf8(m.specials[k].0), i) {
            assert(m.specials[k].1 == m.specials[k].1);
        } else {
            lemma_seen_from(m, s, i, k + 1);
            if m.special_at(s, i, k + 1) is Some {
                let (id, n) = m.special_at(s, i, k + 1)->0;
                let j = choose|j: int|
                    k + 1 <= j < m.specials.len() && (#[trigger] m.specials[j]).1 == id && i + n
                        <= s.len() && encode_utf8(m.specials[j].0).len() == n && s.subrange(i, i + n)
                        == encode_utf8(m.specials[j].0) && forall|e: int|
                        k + 1 <= e < j ==> !(i + encode_utf8((#[trigger] m.specials[e]).0).len()
                            <= s.len() && s.subrange(i, i + encode_utf8(m.specials[e].0).len())
                            == encode_utf8(m.specials[e].0));
                assert(m.specials[j].1 == id);
            }
        }
    }
}

/// The byte map: printable bytes stand for themselves, and the others for the
/// characters from 256 on, in order and without a gap.
pub proof fn byte_map_is_ordered(a: u8, b: u8)
    ensures
        (33 <= a <= 126 || 161 <= a <= 172 || 174 <= a) <==> byte_codepoint(a as int) == a,
        byte_codepoint(a as int) != a ==> 256 <= byte_codepoint(a as int) < 324,
        byte_codepoint(a as int) != a && byte_codepoint(b as int) != b && a < b ==> byte_codepoint(
            a as int,
        ) < byte_codepoint(b as int),
        byte_text(a).len() == 1,
        byte_text(a)[0] as int == byte_codepoint(a as int),
{
}

/// Decoding goes piece by piece: the texts of two runs of tokens follow each
/// other, one token has its vocabulary text, an unknown one none; and of a text
/// the bytes of its parts follow each other, a character of the byte map being
/// its byte and any other one its UTF-8.
pub proof fn decoding_is_piecewise(
    m: TokModel,
    a: Seq<u32>,
    b: Seq<u32>,
    id: u32,
    t: Seq<char>,
    u: Seq<char>,
    c: char,
    byte: u8,
)
    ensures
        m.text_of_tokens(a + b) == m.text_of_tokens(a) + m.text_of_tokens(b),
        id < m.vocab.len() ==> m.text_of_tokens(seq![id]) == m.vocab[id as int],
        id >= m.vocab.len() ==> m.text_of_tokens(seq![id]).len() == 0,
        text_bytes(t + u) == text_bytes(t) + text_bytes(u),
        text_bytes(byte_text(byte)) == seq![byte],
        (forall|x: u8| c as int != #[trigger] byte_codepoint(x as int)) ==> text_bytes(seq![c])
            == encode_utf8(seq![c]),
{
    m.lemma_text_append(a, b);
    let one = seq![id];
    assert(one.drop_last() =~= Seq::<u32>::empty());
    assert(m.text_of_tokens(Seq::<u32>::empty()) =~= Seq::<char>::empty());
    assert(m.text_of_tokens(one) =~= m.token_text(id));
    lemma_text_bytes_append(t, u);
    lemma_byte_text(byte);
    let ch = seq![c];
    assert(ch.drop_last() =~= Seq::<char>::empty());
    assert(text_bytes(Seq::<char>::empty()) =~= Seq::<u8>::empty());
    assert(text_bytes(ch) =~= char_bytes(c));
    if forall|x: u8| c as int != #[trigger] byte_codepoint(x as int) {
        byte_map_onto(c as int);
        if codepoint_byte(c as int) is Some {
            let x = codepoint_byte(c as int)->0;
            assert(byte_codepoint(x as int) == c as int);
        }
    }
}

// ---------------------------------------------------------------------
// What a file means
// ---------------------------------------------------------------------

/// Numbers as bytes: number `k` takes the four bytes from `4 * k` on.
pub open spec fn words(w: Seq<u32>) -> Seq<u8> {
    Seq::new(4 * w.len(), |i: int| le32_bytes(w[i / 4])[i % 4])
}

/// Texts as UTF-8, one behind the other.
pub open spec fn packed(texts: Seq<Seq<char>>) -> Seq<u8>
    decreases texts.len(),
{
    if texts.len() == 0 {
        Seq::empty()
    } else {
        packed(texts.drop_last()) + encode_utf8(texts.last())
    }
}

/// Where each text begins, and where the last one ends.
pub open spec fn starts(texts: Seq<Seq<char>>) -> Seq<u32> {
    Seq::new(texts.len() + 1, |i: int| packed(texts.subrange(0, i)).len() as u32)
}

/// Merges as numbers, three each.
pub open spec fn merge_words(merges: Seq<(u32, u32, u32)>) -> Seq<u32> {
    Seq::new(
        3 * merges.len(),
        |i: int|
            if i % 3 == 0 {
                merges[i / 3].0
            } else if i % 3 == 1 {
                merges[i / 3].1
            } else {
                merges[i / 3].2
            },
    )
}

/// A file of the second version, with anything in its reserved places and
/// anything behind its end.
pub open spec fn file_v2(
    vocab: Seq<Seq<char>>,
    merges: Seq<(u32, u32, u32)>,
    ids: Seq<u32>,
    r: u16,
    q: u32,
    rest: Seq<u8>,
) -> Seq<u8> {
    seq![84u8, 79, 75, 49, 2, 0] + le16_bytes(r) + words(
        seq![vocab.len() as u32, merges.len() as u32, ids.len() as u32, q],
    ) + words(starts(vocab)) + packed(vocab) + words(merge_words(merges)) + words(ids) + rest
}

/// A file of the first version.
pub open spec fn file_v1(
    vocab: Seq<Seq<char>>,
    merges: Seq<(u32, u32, u32)>,
    r: u16,
    rest: Seq<u8>,
) -> Seq<u8> {
    seq![84u8, 79, 75, 49, 1, 0] + le16_bytes(r) + words(
        seq![vocab.len() as u32, merges.len() as u32],
    ) + words(starts(vocab)) + packed(vocab) + words(merge_words(merges)) + rest
}

pub(crate) proof fn lemma_word(s: Seq<u8>, at: int, w: Seq<u32>, k: int)
    requires
        0 <= k < w.len(),
        0 <= at,
        at + 4 * w.len() <= s.len(),
        s.subrange(at, at + 4 * w.len()) == words(w),
    ensures
        le32(s, at + 4 * k) == w[k],
{
    let i = at + 4 * k;
    let v = le32_bytes(w[k]);
    let all = s.subrange(at, at + 4 * w.len());
    assert((4 * k) / 4 == k && (4 * k) % 4 == 0);
    assert((4 * k + 1) / 4 == k && (4 * k + 1) % 4 == 1);
    assert((4 * k + 2) / 4 == k && (4 * k + 2) % 4 == 2);
    assert((4 * k + 3) / 4 == k && (4 * k + 3) % 4 == 3);
    assert(s[i] == all[4 * k]);
    assert(s[i + 1] == all[4 * k + 1]);
    assert(s[i + 2] == all[4 * k + 2]);
    assert(s[i + 3] == all[4 * k + 3]);
    assert(s.subrange(i, i + 4) =~= v);
    le32_round_trip(s, i, w[k]);
}

proof fn lemma_middle(a: Seq<u8>, b: Seq<u8>, c: Seq<u8>)
    ensures
        (a + b + c).len() == a.len() + b.len() + c.len(),
        (a + b + c).subrange(a.len() as int, (a.len() + b.len()) as int) == b,
{
    assert((a + b + c).subrange(a.len() as int, (a.len() + b.len()) as int) =~= b);
}

proof fn lemma_packed(texts: Seq<Seq<char>>, k: int)
    requires
        0 <= k < texts.len(),
    ensures
        ({
            let from = packed(texts.subrange(0, k)).len() as int;
            let to = packed(texts.subrange(0, k + 1)).len() as int;
            0 <= from <= to <= packed(texts).len() && packed(texts).subrange(from, to)
                == encode_utf8(texts[k])
        }),
    decreases texts.len(),
{
    let from = packed(texts.subrange(0, k)).len() as int;
    let to = packed(texts.subrange(0, k + 1)).len() as int;
    assert(texts.subrange(0, k + 1).drop_last() =~= texts.subrange(0, k));
    assert(to == from + encode_utf8(texts[k]).len());
    if k == texts.len() - 1 {
        assert(texts.drop_last() =~= texts.subrange(0, k));
        assert(texts.subrange(0, k + 1) =~= texts);
        assert(packed(texts).subrange(from, to) =~= encode_utf8(texts[k]));
    } else {
        let less = texts.drop_last();
        lemma_packed(less, k);
        assert(less.subrange(0, k) =~= texts.subrange(0, k));
        assert(less.subrange(0, k + 1) =~= texts.subrange(0, k + 1));
        assert(packed(texts).subrange(from, to) =~= packed(less).subrange(from, to));
    }
}

/// The sections of a file, where its header says they are.
spec fn laid_out(
    h: TokHeader,
    s: Seq<u8>,
    vocab: Seq<Seq<char>>,
    merges: Seq<(u32, u32, u32)>,
) -> bool {
    let at = h.end + 4 * (vocab.len() + 1);
    let to = at + packed(vocab).len();
    &&& h.n_tokens == vocab.len()
    &&& h.n_merges == merges.len()
    &&& 0 < vocab.len() < u32::MAX
    &&& packed(vocab).len() <= u32::MAX
    &&& 0 <= h.end
    &&& to + 12 * merges.len() <= s.len()
    &&& s.subrange(h.end, at) == words(starts(vocab))
    &&& s.subrange(at, to) == packed(vocab)
    &&& s.subrange(to, to + 12 * merges.len()) == words(merge_words(merges))
}

proof fn lemma_offset(
    h: TokHeader,
    s: Seq<u8>,
    vocab: Seq<Seq<char>>,
    merges: Seq<(u32, u32, u32)>,
    i: int,
)
    requires
        laid_out(h, s, vocab, merges),
        0 <= i <= vocab.len(),
    ensures
        h.offset(s, i) == packed(vocab.subrange(0, i)).len(),
        packed(vocab.subrange(0, i)).len() <= packed(vocab).len(),
{
    lemma_word(s, h.end, starts(vocab), i);
    if i < vocab.len() {
        lemma_packed(vocab, i);
    } else {
        assert(vocab.subrange(0, i) =~= vocab);
    }
}

#[verifier::rlimit(40)]
proof fn lemma_token(
    h: TokHeader,
    s: Seq<u8>,
    vocab: Seq<Seq<char>>,
    merges: Seq<(u32, u32, u32)>,
    i: int,
)
    requires
        laid_out(h, s, vocab, merges),
        0 <= i < vocab.len(),
    ensures
        h.token_bytes(s, i) == encode_utf8(vocab[i]),
        h.offset(s, i) <= h.offset(s, i + 1),
        h.section() + h.offset(s, i + 1) <= s.len(),
        valid_utf8(h.token_bytes(s, i)),
        decode_utf8(h.token_bytes(s, i)) == vocab[i],
{
    lemma_offset(h, s, vocab, merges, i);
    lemma_offset(h, s, vocab, merges, i + 1);
    lemma_packed(vocab, i);
    let from = packed(vocab.subrange(0, i)).len() as int;
    let to = packed(vocab.subrange(0, i + 1)).len() as int;
    let at = h.section();
    let pack = s.subrange(at, at + packed(vocab).len());
    assert(s.subrange(at + from, at + to) =~= pack.subrange(from, to));
    encode_utf8_valid_utf8(vocab[i]);
    encode_utf8_decode_utf8(vocab[i]);
}

#[verifier::rlimit(40)]
proof fn lemma_merge(
    h: TokHeader,
    s: Seq<u8>,
    vocab: Seq<Seq<char>>,
    merges: Seq<(u32, u32, u32)>,
    i: int,
)
    requires
        laid_out(h, s, vocab, merges),
        h.merges_at(s) == h.section() + packed(vocab).len(),
        0 <= i < merges.len(),
    ensures
        h.merge(s, i) == merges[i],
{
    let mw = merge_words(merges);
    let at = h.merges_at(s);
    assert((3 * i) / 3 == i && (3 * i) % 3 == 0);
    assert((3 * i + 1) / 3 == i && (3 * i + 1) % 3 == 1);
    assert((3 * i + 2) / 3 == i && (3 * i + 2) % 3 == 2);
    assert(mw.len() == 3 * merges.len());
    lemma_word(s, at, mw, 3 * i);
    lemma_word(s, at, mw, 3 * i + 1);
    lemma_word(s, at, mw, 3 * i + 2);
}

/// What a header and the sections behind it give.
#[verifier::rlimit(40)]
proof fn lemma_sections(
    h: TokHeader,
    s: Seq<u8>,
    vocab: Seq<Seq<char>>,
    merges: Seq<(u32, u32, u32)>,
)
    requires
        laid_out(h, s, vocab, merges),
    ensures
        h.section() <= s.len(),
        h.falling_offset(s, 0) is None,
        h.bad_token(s, 0) is None,
        h.vocab(s) == vocab,
        h.merges(s) == merges,
        h.specials_at(s) == h.section() + packed(vocab).len() + 12 * merges.len(),
{
    let n = vocab.len() as int;
    lemma_offset(h, s, vocab, merges, 0);
    lemma_offset(h, s, vocab, merges, n);
    assert(vocab.subrange(0, 0) =~= Seq::<Seq<char>>::empty());
    assert(vocab.subrange(0, n) =~= vocab);
    assert forall|i: int| 0 <= i < n implies #[trigger] h.offset(s, i) <= h.offset(s, i + 1) by {
        lemma_token(h, s, vocab, merges, i);
    }
    lemma_no_falling(h, s, 0);
    assert forall|i: int| 0 <= i < n implies valid_utf8(#[trigger] h.token_bytes(s, i))
        && h.section() + h.offset(s, i + 1) <= s.len() by {
        lemma_token(h, s, vocab, merges, i);
    }
    lemma_tokens_good(h, s, 0);
    assert forall|i: int| 0 <= i < n implies #[trigger] h.vocab(s)[i] == vocab[i] by {
        lemma_token(h, s, vocab, merges, i);
    }
    assert(h.vocab(s) =~= vocab);
    assert forall|i: int| 0 <= i < merges.len() implies #[trigger] h.merges(s)[i] == merges[i] by {
        lemma_merge(h, s, vocab, merges, i);
    }
    assert(h.merges(s) =~= merges);
}

/// The sections one behind the other.
#[verifier::rlimit(40)]
proof fn lemma_laid_out(
    h: TokHeader,
    head: Seq<u8>,
    vocab: Seq<Seq<char>>,
    merges: Seq<(u32, u32, u32)>,
    end: Seq<u8>,
)
    requires
        h.end == head.len(),
        h.n_tokens == vocab.len(),
        h.n_merges == merges.len(),
        0 < vocab.len() < u32::MAX,
        packed(vocab).len() <= u32::MAX,
    ensures
        laid_out(
            h,
            head + words(starts(vocab)) + packed(vocab) + words(merge_words(merges)) + end,
            vocab,
            merges,
        ),
{
    let a = words(starts(vocab));
    let b = packed(vocab);
    let c = words(merge_words(merges));
    let s = head + a + b + c + end;
    lemma_middle(head, a, b + c + end);
    assert(s =~= head + a + (b + c + end));
    lemma_middle(head + a, b, c + end);
    assert(s =~= head + a + b + (c + end));
    lemma_middle(head + a + b, c, end);
}

proof fn lemma_no_falling(h: TokHeader, s: Seq<u8>, i: int)
    requires
        0 <= i,
        forall|k: int|
            0 <= k < h.n_tokens ==> #[trigger] h.offset(s, k) <= h.offset(s, k + 1),
    ensures
        h.falling_offset(s, i) is None,
    decreases h.n_tokens - i,
{
    if i < h.n_tokens {
        assert(h.offset(s, i) <= h.offset(s, i + 1));
        lemma_no_falling(h, s, i + 1);
    }
}

proof fn lemma_tokens_good(h: TokHeader, s: Seq<u8>, i: int)
    requires
        0 <= i,
        forall|k: int|
            0 <= k < h.n_tokens ==> valid_utf8(#[trigger] h.token_bytes(s, k)) && h.section()
                + h.offset(s, k + 1) <= s.len(),
    ensures
        h.bad_token(s, i) is None,
    decreases h.n_tokens - i,
{
    if i < h.n_tokens {
        assert(valid_utf8(h.token_bytes(s, i)));
        lemma_tokens_good(h, s, i + 1);
    }
}

proof fn lemma_nothing_missing(vocab: Seq<Seq<char>>, b: int)
    requires
        0 <= b,
        vocab.len() <= u32::MAX,
        has_byte_tokens(vocab),
    ensures
        missing_byte(vocab, b) is None,
    decreases 256 - b,
{
    if b < 256 {
        lemma_byte_token(vocab, b as u8);
        lemma_nothing_missing(vocab, b + 1);
    }
}

/// The special texts of a model are the texts of the ids that the file lists,
/// but for ids without a text.
#[verifier::rlimit(40)]
proof fn lemma_special_members(h: TokHeader, s: Seq<u8>, k: int)
    ensures
        forall|i: int| #![trigger h.special_id(s, i)]
            0 <= i < k && h.special_id(s, i) < h.n_tokens && h.vocab(s)[h.special_id(
                s,
                i,
            ) as int].len() > 0 ==> h.specials(s, k).contains(
                (h.vocab(s)[h.special_id(s, i) as int], h.special_id(s, i)),
            ),
        forall|e: (Seq<char>, u32)| #[trigger]
            h.specials(s, k).contains(e) ==> exists|i: int|
                0 <= i < k && #[trigger] h.special_id(s, i) == e.1 && e.1 < h.n_tokens && e.0
                    == h.vocab(s)[e.1 as int] && e.0.len() > 0,
    decreases k,
{
    if k > 0 {
        lemma_special_members(h, s, k - 1);
        let before = h.specials(s, k - 1);
        let after = h.specials(s, k);
        let id = h.special_id(s, k - 1);
        if id < h.n_tokens && h.vocab(s)[id as int].len() > 0 {
            let e = (h.vocab(s)[id as int], id);
            let at = longer_prefix(before, byte_len(e.0)) as int;
            lemma_longer_prefix_bound(before, byte_len(e.0));
            assert(after == before.insert(at, e));
            assert forall|x: (Seq<char>, u32)| #[trigger] after.contains(x) <==> before.contains(x)
                || x == e by {
                if before.contains(x) {
                    let j = choose|j: int| 0 <= j < before.len() && before[j] == x;
                    if j < at {
                        assert(after[j] == x);
                    } else {
                        assert(after[j + 1] == x);
                    }
                }
                if x == e {
                    assert(after[at] == x);
                }
                if after.contains(x) {
                    let j = choose|j: int| 0 <= j < after.len() && after[j] == x;
                    if j < at {
                        assert(before[j] == x);
                    } else if j > at {
                        assert(before[j - 1] == x);
                    }
                }
            }
            assert(h.special_id(s, k - 1) == e.1);
        }
    }
}

/// Whether the special texts are those of the listed ids, but for ids without a
/// text, the longest first.
pub open spec fn specials_listed(m: TokModel, ids: Seq<u32>) -> bool {
    &&& forall|i: int|
        0 <= i < ids.len() && (#[trigger] ids[i]) < m.vocab.len() && m.vocab[ids[i] as int].len()
            > 0 ==> m.specials.contains((m.vocab[ids[i] as int], ids[i]))
    &&& forall|j: int|
        0 <= j < m.specials.len() ==> {
            let (t, id) = #[trigger] m.specials[j];
            ids.contains(id) && id < m.vocab.len() && t == m.vocab[id as int] && t.len() > 0
        }
    &&& forall|j: int, k: int|
        0 <= j < k < m.specials.len() ==> encode_utf8((#[trigger] m.specials[j]).0).len()
            >= encode_utf8((#[trigger] m.specials[k]).0).len()
}

/// A file of the second version reads back: its texts, its merges and its
/// special texts, whatever stands in the reserved places and behind the end.
#[verifier::rlimit(40)]
pub proof fn files_read_back(
    vocab: Seq<Seq<char>>,
    merges: Seq<(u32, u32, u32)>,
    ids: Seq<u32>,
    r: u16,
    q: u32,
    rest: Seq<u8>,
)
    requires
        0 < vocab.len() < u32::MAX,
        merges.len() <= u32::MAX,
        ids.len() <= u32::MAX,
        packed(vocab).len() <= u32::MAX,
        has_byte_tokens(vocab),
    ensures
        model_of(file_v2(vocab, merges, ids, r, q, rest)) matches Ok(m) && m.vocab == vocab
            && m.merges == merges && specials_listed(m, ids),
{
    let s = file_v2(vocab, merges, ids, r, q, rest);
    let h = TokHeader {
        n_tokens: vocab.len() as int,
        n_merges: merges.len() as int,
        n_special: ids.len() as int,
        end: 24,
    };
    lemma_v2_parts(vocab, merges, ids, r, q, rest);
    lemma_v2_header(s, vocab.len() as u32, merges.len() as u32, ids.len() as u32, q, r);
    lemma_model(h, s, vocab, merges, ids);
}

/// What is read from the sections.
#[verifier::rlimit(40)]
proof fn lemma_model(
    h: TokHeader,
    s: Seq<u8>,
    vocab: Seq<Seq<char>>,
    merges: Seq<(u32, u32, u32)>,
    ids: Seq<u32>,
)
    requires
        header_of(s) == Ok::<TokHeader, TokenizerError>(h),
        laid_out(h, s, vocab, merges),
        has_byte_tokens(vocab),
        h.n_special == ids.len(),
        ({
            let at = h.section() + packed(vocab).len() + 12 * merges.len();
            at + 4 * ids.len() <= s.len() && s.subrange(at, at + 4 * ids.len()) == words(ids)
        }),
    ensures
        model_of(s) matches Ok(m) && m.vocab == vocab && m.merges == merges && specials_listed(
            m,
            ids,
        ),
{
    lemma_sections(h, s, vocab, merges);
    lemma_nothing_missing(vocab, 0);
    let m = model_of(s)->Ok_0;
    assert(model_of(s) is Ok);
    assert forall|i: int| 0 <= i < ids.len() implies #[trigger] h.special_id(s, i) == ids[i] by {
        lemma_word(s, h.specials_at(s), ids, i);
    }
    lemma_special_members(h, s, h.n_special);
    lemma_specials_longest_first(h, s, h.n_special);
    assert forall|i: int|
        0 <= i < ids.len() && (#[trigger] ids[i]) < m.vocab.len() && m.vocab[ids[i] as int].len()
            > 0 implies m.specials.contains((m.vocab[ids[i] as int], ids[i])) by {
        assert(h.special_id(s, i) == ids[i]);
    }
    assert forall|j: int| 0 <= j < m.specials.len() implies {
        let (t, id) = #[trigger] m.specials[j];
        ids.contains(id) && id < m.vocab.len() && t == m.vocab[id as int] && t.len() > 0
    } by {
        let e = m.specials[j];
        assert(h.specials(s, h.n_special).contains(e));
        let i = choose|i: int|
            0 <= i < h.n_special && #[trigger] h.special_id(s, i) == e.1 && e.1 < h.n_tokens && e.0
                == h.vocab(s)[e.1 as int] && e.0.len() > 0;
        assert(ids[i] == e.1);
    }
}

/// A file of the first version reads back; it has no special texts.
#[verifier::rlimit(40)]
pub proof fn old_files_read_back(
    vocab: Seq<Seq<char>>,
    merges: Seq<(u32, u32, u32)>,
    r: u16,
    rest: Seq<u8>,
)
    requires
        0 < vocab.len() < u32::MAX,
        merges.len() <= u32::MAX,
        packed(vocab).len() <= u32::MAX,
        has_byte_tokens(vocab),
    ensures
        model_of(file_v1(vocab, merges, r, rest)) matches Ok(m) && m.vocab == vocab && m.merges
            == merges && m.specials.len() == 0,
{
    let s = file_v1(vocab, merges, r, rest);
    let h = TokHeader {
        n_tokens: vocab.len() as int,
        n_merges: merges.len() as int,
        n_special: 0,
        end: 16,
    };
    lemma_v1_parts(vocab, merges, r, rest);
    lemma_v1_header(s, vocab.len() as u32, merges.len() as u32, r);
    lemma_model_without_specials(h, s, vocab, merges);
}

#[verifier::rlimit(40)]
proof fn lemma_model_without_specials(
    h: TokHeader,
    s: Seq<u8>,
    vocab: Seq<Seq<char>>,
    merges: Seq<(u32, u32, u32)>,
)
    requires
        header_of(s) == Ok::<TokHeader, TokenizerError>(h),
        laid_out(h, s, vocab, merges),
        has_byte_tokens(vocab),
        h.n_special == 0,
    ensures
        model_of(s) matches Ok(m) && m.vocab == vocab && m.merges == merges && m.specials.len() == 0,
{
    let none = Seq::<u32>::empty();
    let at = h.section() + packed(vocab).len() + 12 * merges.len();
    assert(s.subrange(at, at) =~= words(none));
    lemma_model(h, s, vocab, merges, none);
    let m = model_of(s)->Ok_0;
    if m.specials.len() > 0 {
        assert(none.contains(m.specials[0].1));
    }
}

proof fn lemma_v2_header(s: Seq<u8>, n: u32, m: u32, k: u32, q: u32, r: u16)
    requires
        s.len() >= 24,
        s.subrange(0, 8) == seq![84u8, 79, 75, 49, 2, 0] + le16_bytes(r),
        s.subrange(8, 24) == words(seq![n, m, k, q]),
    ensures
        header_of(s) == Ok::<TokHeader, TokenizerError>(
            TokHeader { n_tokens: n as int, n_merges: m as int, n_special: k as int, end: 24 },
        ),
{
    let counts = seq![n, m, k, q];
    lemma_word(s, 8, counts, 0);
    lemma_word(s, 8, counts, 1);
    lemma_word(s, 8, counts, 2);
    lemma_lead(s, s.subrange(0, 8), 2, r);
}

proof fn lemma_v1_header(s: Seq<u8>, n: u32, m: u32, r: u16)
    requires
        s.len() >= 16,
        s.subrange(0, 8) == seq![84u8, 79, 75, 49, 1, 0] + le16_bytes(r),
        s.subrange(8, 16) == words(seq![n, m]),
    ensures
        header_of(s) == Ok::<TokHeader, TokenizerError>(
            TokHeader { n_tokens: n as int, n_merges: m as int, n_special: 0, end: 16 },
        ),
{
    let counts = seq![n, m];
    lemma_word(s, 8, counts, 0);
    lemma_word(s, 8, counts, 1);
    lemma_lead(s, s.subrange(0, 8), 1, r);
}

proof fn lemma_lead(s: Seq<u8>, lead: Seq<u8>, version: u8, r: u16)
    requires
        s.len() >= 8,
        s.subrange(0, 8) == lead,
        lead == seq![84u8, 79, 75, 49, version, 0] + le16_bytes(r),
    ensures
        le32(s, 0) == TOKB_MAGIC,
        le16(s, 4) == version,
{
    assert(s[0] == lead[0] && s[1] == lead[1] && s[2] == lead[2] && s[3] == lead[3]);
    assert(s[4] == lead[4] && s[5] == lead[5]);
}

#[verifier::rlimit(40)]
proof fn lemma_v2_parts(
    vocab: Seq<Seq<char>>,
    merges: Seq<(u32, u32, u32)>,
    ids: Seq<u32>,
    r: u16,
    q: u32,
    rest: Seq<u8>,
)
    requires
        0 < vocab.len() < u32::MAX,
        packed(vocab).len() <= u32::MAX,
    ensures
        ({
            let s = file_v2(vocab, merges, ids, r, q, rest);
            let h = TokHeader {
                n_tokens: vocab.len() as int,
                n_merges: merges.len() as int,
                n_special: ids.len() as int,
                end: 24,
            };
            let at = h.section() + packed(vocab).len() + 12 * merges.len();
            &&& laid_out(h, s, vocab, merges)
            &&& s.subrange(0, 8) == seq![84u8, 79, 75, 49, 2, 0] + le16_bytes(r)
            &&& s.subrange(8, 24) == words(
                seq![vocab.len() as u32, merges.len() as u32, ids.len() as u32, q],
            )
            &&& at + 4 * ids.len() <= s.len()
            &&& s.subrange(at, at + 4 * ids.len()) == words(ids)
        }),
{
    let s = file_v2(vocab, merges, ids, r, q, rest);
    let counts = words(seq![vocab.len() as u32, merges.len() as u32, ids.len() as u32, q]);
    let lead = seq![84u8, 79, 75, 49, 2, 0] + le16_bytes(r);
    let a = words(starts(vocab));
    let b = packed(vocab);
    let c = words(merge_words(merges));
    let d = words(ids);
    let h = TokHeader {
        n_tokens: vocab.len() as int,
        n_merges: merges.len() as int,
        n_special: ids.len() as int,
        end: 24,
    };
    assert(lead.len() == 8 && counts.len() == 16);
    lemma_regroup(lead + counts, a, b, c, d, rest);
    lemma_middle(lead, counts, a + b + c + (d + rest));
    lemma_front(lead, counts, a + b + c + (d + rest));
    lemma_laid_out(h, lead + counts, vocab, merges, d + rest);
    lemma_middle(lead + counts + a + b + c, d, rest);
}

proof fn lemma_front(a: Seq<u8>, b: Seq<u8>, c: Seq<u8>)
    ensures
        (a + b + c).subrange(0, a.len() as int) == a,
{
    assert((a + b + c).subrange(0, a.len() as int) =~= a);
}

proof fn lemma_regroup(
    x: Seq<u8>,
    a: Seq<u8>,
    b: Seq<u8>,
    c: Seq<u8>,
    d: Seq<u8>,
    e: Seq<u8>,
)
    ensures
        x + a + b + c + d + e == x + (a + b + c + (d + e)),
        x + a + b + c + d + e == x + a + b + c + (d + e),
{
    assert(x + a + b + c + d + e =~= x + (a + b + c + (d + e)));
    assert(x + a + b + c + d + e =~= x + a + b + c + (d + e));
}

#[verifier::rlimit(40)]
proof fn lemma_v1_parts(
    vocab: Seq<Seq<char>>,
    merges: Seq<(u32, u32, u32)>,
    r: u16,
    rest: Seq<u8>,
)
    requires
        0 < vocab.len() < u32::MAX,
        packed(vocab).len() <= u32::MAX,
    ensures
        ({
            let s = file_v1(vocab, merges, r, rest);
            let h = TokHeader {
                n_tokens: vocab.len() as int,
                n_merges: merges.len() as int,
                n_special: 0,
                end: 16,
            };
            &&& laid_out(h, s, vocab, merges)
            &&& s.subrange(0, 8) == seq![84u8, 79, 75, 49, 1, 0] + le16_bytes(r)
            &&& s.subrange(8, 16) == words(seq![vocab.len() as u32, merges.len() as u32])
        }),
{
    let s = file_v1(vocab, merges, r, rest);
    let counts = words(seq![vocab.len() as u32, merges.len() as u32]);
    let lead = seq![84u8, 79, 75, 49, 1, 0] + le16_bytes(r);
    let a = words(starts(vocab));
    let b = packed(vocab);
    let c = words(merge_words(merges));
    let h = TokHeader {
        n_tokens: vocab.len() as int,
        n_merges: merges.len() as int,
        n_special: 0,
        end: 16,
    };
    assert(lead.len() == 8 && counts.len() == 8);
    lemma_regroup_short(lead + counts, a, b, c, rest);
    lemma_middle(lead, counts, a + b + c + rest);
    lemma_front(lead, counts, a + b + c + rest);
    lemma_laid_out(h, lead + counts, vocab, merges, rest);
}

proof fn lemma_regroup_short(x: Seq<u8>, a: Seq<u8>, b: Seq<u8>, c: Seq<u8>, d: Seq<u8>)
    ensures
        x + a + b + c + d == x + (a + b + c + d),
{
    assert(x + a + b + c + d =~= x + (a + b + c + d));
}

/// Bytes that are UTF-8 are shown as their text, and others as
/// `String::from_utf8_lossy` shows them.
pub proof fn bytes_are_shown(text: Seq<char>, s: Seq<u8>)
    ensures
        shown_text(encode_utf8(text)) == text,
        !valid_utf8(s) ==> shown_text(s) == utf8_lossy(s),
{
    encode_utf8_valid_utf8(text);
    encode_utf8_decode_utf8(text);
}

} // verus!
