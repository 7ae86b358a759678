//! Local syntactic pre-validation of generated Rust source.
//!
//! A remote compile costs seconds per attempt, so truncated or mis-bracketed
//! output is caught here first. This is not a compiler: it is a bracket balance
//! check that knows enough lexical rules to skip line comments, nested block
//! comments, strings with escapes, raw strings with hashes, character literals
//! and lifetimes. Everything else is code, and in code every bracket has to
//! match.
use vstd::prelude::*;
use vstd::string::*;
use crate::text::{dec_chars, push_dec};

verus! {

broadcast use vstd::seq_lib::group_seq_properties;

/// Deepest bracket nesting that is still accepted.
pub const MAX_DEPTH: usize = 256;

pub const SLASH: u8 = '/' as u8;

pub const STAR: u8 = '*' as u8;

pub const NEWLINE: u8 = '\n' as u8;

pub const QUOTE: u8 = '"' as u8;

pub const TICK: u8 = '\'' as u8;

pub const HASH: u8 = '#' as u8;

pub const BACKSLASH: u8 = '\\' as u8;

pub const LOWER_R: u8 = 'r' as u8;

pub const OPEN_BRACE: u8 = '{' as u8;

pub const CLOSE_BRACE: u8 = '}' as u8;

pub const OPEN_PAREN: u8 = '(' as u8;

pub const CLOSE_PAREN: u8 = ')' as u8;

pub const OPEN_BRACKET: u8 = '[' as u8;

pub const CLOSE_BRACKET: u8 = ']' as u8;

/// Outcome of a pre-validation pass.
#[derive(Debug, Clone, PartialEq, Eq)]
pub enum PrevalidateOutcome {
    /// All literals closed, all brackets balanced.
    Balanced,
    /// `expected` is the bracket that had to come next, `found` the one that
    /// came, or NUL at the end of the input.
    BracketMismatch { expected: char, found: char, byte_offset: usize },
    /// The input ended inside a literal or a block comment.
    Unterminated { kind: &'static str, byte_offset: usize },
    /// Closing bracket with no matching open.
    StrayClose { found: char, byte_offset: usize },
}

impl PrevalidateOutcome {
    pub fn is_ok(&self) -> (r: bool)
        ensures
            r == (*self is Balanced),
    {
        matches!(self, PrevalidateOutcome::Balanced)
    }

    /// The single-line message for an outcome.
    pub open spec fn diagnostic_chars(self) -> Seq<char> {
        match self {
            PrevalidateOutcome::Balanced => "ok"@,
            PrevalidateOutcome::BracketMismatch { expected, found, byte_offset } =>
                "[prevalidate] bracket mismatch at byte "@ + dec_chars(byte_offset as nat)
                    + ": expected '"@.push(expected) + "', found '"@.push(found).push('\''),
            PrevalidateOutcome::Unterminated { kind, byte_offset } =>
                "[prevalidate] unterminated "@ + kind@ + " starting at byte "@
                    + dec_chars(byte_offset as nat),
            PrevalidateOutcome::StrayClose { found, byte_offset } =>
                "[prevalidate] stray closing '"@.push(found) + "' at byte "@
                    + dec_chars(byte_offset as nat) + " with no matching open"@,
        }
    }

    /// A single-line human-readable message, fit for a retry prompt.
    pub fn diagnostic(&self) -> (s: String)
        ensures
            s@ == self.diagnostic_chars(),
    {
        let mut s = String::new();
        match self {
            PrevalidateOutcome::Balanced => s.push_str("ok"),
            PrevalidateOutcome::BracketMismatch { expected, found, byte_offset } => {
                s.push_str("[prevalidate] bracket mismatch at byte ");
                push_dec(&mut s, *byte_offset as u64);
                s.push_str(": expected '");
                s.push(*expected);
                s.push_str("', found '");
                s.push(*found);
                s.push('\'');
            },
            PrevalidateOutcome::Unterminated { kind, byte_offset } => {
                s.push_str("[prevalidate] unterminated ");
                s.push_str(kind);
                s.push_str(" starting at byte ");
                push_dec(&mut s, *byte_offset as u64);
            },
            PrevalidateOutcome::StrayClose { found, byte_offset } => {
                s.push_str("[prevalidate] stray closing '");
                s.push(*found);
                s.push_str("' at byte ");
                push_dec(&mut s, *byte_offset as u64);
                s.push_str(" with no matching open");
            },
        }
        assert(s@ =~= self.diagnostic_chars());
        s
    }
}

// ---------------------------------------------------------------------
// What the lexer skips
// ---------------------------------------------------------------------

/// End of the line that `i` stands on: the newline or the end of the input.
pub open spec fn line_end(s: Seq<u8>, i: int) -> int
    decreases s.len() - i,
{
    if i >= s.len() || s[i] == NEWLINE {
        i
    } else {
        line_end(s, i + 1)
    }
}

/// Where a block comment with `nest` open levels ends, seen from `i` inside it.
pub open spec fn block_end(s: Seq<u8>, i: int, nest: nat) -> Option<int>
    decreases s.len() - i,
{
    if nest == 0 {
        Some(i)
    } else if i + 1 >= s.len() {
        None
    } else if s[i] == SLASH && s[i + 1] == STAR {
        block_end(s, i + 2, nest + 1)
    } else if s[i] == STAR && s[i + 1] == SLASH {
        block_end(s, i + 2, (nest - 1) as nat)
    } else {
        block_end(s, i + 1, nest)
    }
}

/// Number of hashes that stand in a row from `i`.
pub open spec fn hash_run(s: Seq<u8>, i: int) -> nat
    decreases s.len() - i,
{
    if i < s.len() && s[i] == HASH {
        1 + hash_run(s, i + 1)
    } else {
        0
    }
}

/// Where a raw string ends: past the first quote that has `h` hashes behind it.
pub open spec fn raw_end(s: Seq<u8>, i: int, h: nat) -> Option<int>
    decreases s.len() - i,
{
    if i >= s.len() {
        None
    } else if s[i] == QUOTE && hash_run(s, i + 1) >= h {
        Some(i + 1 + h)
    } else {
        raw_end(s, i + 1, h)
    }
}

/// Where a string ends: past the first quote that no backslash escapes.
pub open spec fn string_end(s: Seq<u8>, i: int) -> Option<int>
    decreases s.len() - i,
{
    if i >= s.len() {
        None
    } else if s[i] == BACKSLASH && i + 1 < s.len() {
        string_end(s, i + 2)
    } else if s[i] == QUOTE {
        Some(i + 1)
    } else {
        string_end(s, i + 1)
    }
}

/// The first tick in `[i, end)`.
pub open spec fn first_tick(s: Seq<u8>, i: int, end: int) -> Option<int>
    decreases end - i,
{
    if i >= end {
        None
    } else if s[i] == TICK {
        Some(i)
    } else {
        first_tick(s, i + 1, end)
    }
}

/// Bytes of the UTF-8 character that starts with `lead`; an invalid lead counts
/// as one byte.
pub open spec fn utf8_width(lead: u8) -> int {
    if lead < 0xC0 {
        1
    } else if lead < 0xE0 {
        2
    } else if lead < 0xF0 {
        3
    } else {
        4
    }
}

/// Where the character literal at `i` ends, or `None` where the tick at `i`
/// begins a lifetime. An escape closes within twelve bytes of its opening tick,
/// behind the escaped character.
pub open spec fn char_end(s: Seq<u8>, i: int) -> Option<int> {
    let end = if s.len() - i < 12 { s.len() as int } else { i + 12 };
    if i + 1 >= end {
        None
    } else if s[i + 1] == BACKSLASH {
        match first_tick(s, i + 3, end) {
            Some(p) => Some(p + 1),
            None => None,
        }
    } else {
        let j = i + 1 + utf8_width(s[i + 1]);
        if j < s.len() && s[j] == TICK {
            Some(j + 1)
        } else {
            None
        }
    }
}

pub open spec fn is_open(b: u8) -> bool {
    b == OPEN_BRACE || b == OPEN_PAREN || b == OPEN_BRACKET
}

pub open spec fn is_close(b: u8) -> bool {
    b == CLOSE_BRACE || b == CLOSE_PAREN || b == CLOSE_BRACKET
}

/// The bracket that closes `open`.
pub open spec fn closer(open: u8) -> u8 {
    if open == OPEN_BRACE {
        CLOSE_BRACE
    } else if open == OPEN_PAREN {
        CLOSE_PAREN
    } else {
        CLOSE_BRACKET
    }
}

/// What stands at one place of the source.
pub enum Piece {
    /// Something without brackets that reaches to `to`.
    Skip { to: int },
    /// A bracket of the code.
    Bracket,
    /// A literal or comment that never closes.
    Open { kind: &'static str },
}

/// The piece that begins at `i`.
pub open spec fn piece_at(s: Seq<u8>, i: int) -> Piece {
    let b = s[i];
    if b == SLASH && i + 1 < s.len() && s[i + 1] == SLASH {
        Piece::Skip { to: line_end(s, i + 2) }
    } else if b == SLASH && i + 1 < s.len() && s[i + 1] == STAR {
        match block_end(s, i + 2, 1) {
            Some(e) => Piece::Skip { to: e },
            None => Piece::Open { kind: "block comment" },
        }
    } else if b == LOWER_R && i + 1 < s.len() && (s[i + 1] == QUOTE || s[i + 1] == HASH) {
        let h = hash_run(s, i + 1);
        let p = i + 1 + h;
        if p >= s.len() || s[p] != QUOTE {
            Piece::Skip { to: i + 1 }
        } else {
            match raw_end(s, p + 1, h) {
                Some(e) => Piece::Skip { to: e },
                None => Piece::Open { kind: "raw string literal" },
            }
        }
    } else if b == QUOTE {
        match string_end(s, i + 1) {
            Some(e) => Piece::Skip { to: e },
            None => Piece::Open { kind: "string literal" },
        }
    } else if b == TICK {
        match char_end(s, i) {
            Some(e) => Piece::Skip { to: e },
            None => Piece::Skip { to: i + 1 },
        }
    } else if is_open(b) || is_close(b) {
        Piece::Bracket
    } else {
        Piece::Skip { to: i + 1 }
    }
}

/// What matters for the balance, in the order in which it stands.
pub enum Lexeme {
    Bracket { b: u8, at: int },
    Unterminated { kind: &'static str, at: int },
}

/// The lexemes of the source from `i` on. Nothing follows an unterminated one.
pub open spec fn lexemes(s: Seq<u8>, i: int) -> Seq<Lexeme>
    decreases s.len() - i,
{
    if i < 0 || i >= s.len() {
        Seq::empty()
    } else {
        proof {
            lemma_piece_advances(s, i);
        }
        match piece_at(s, i) {
            Piece::Skip { to } => lexemes(s, to),
            Piece::Bracket => seq![Lexeme::Bracket { b: s[i], at: i }] + lexemes(s, i + 1),
            Piece::Open { kind } => seq![Lexeme::Unterminated { kind, at: i }],
        }
    }
}

/// The verdict on a run of lexemes while the brackets in `stack` are open.
pub open spec fn balance(ev: Seq<Lexeme>, stack: Seq<(u8, int)>) -> PrevalidateOutcome
    decreases ev.len(),
{
    if ev.len() == 0 {
        if stack.len() == 0 {
            PrevalidateOutcome::Balanced
        } else {
            PrevalidateOutcome::BracketMismatch {
                expected: closer(stack.last().0) as char,
                found: '\0',
                byte_offset: stack.last().1 as usize,
            }
        }
    } else {
        match ev[0] {
            Lexeme::Unterminated { kind, at } => PrevalidateOutcome::Unterminated {
                kind,
                byte_offset: at as usize,
            },
            Lexeme::Bracket { b, at } => if is_open(b) {
                if stack.len() >= MAX_DEPTH {
                    PrevalidateOutcome::BracketMismatch {
                        expected: ')',
                        found: b as char,
                        byte_offset: at as usize,
                    }
                } else {
                    balance(ev.drop_first(), stack.push((b, at)))
                }
            } else if stack.len() == 0 {
                PrevalidateOutcome::StrayClose { found: b as char, byte_offset: at as usize }
            } else if b != closer(stack.last().0) {
                PrevalidateOutcome::BracketMismatch {
                    expected: closer(stack.last().0) as char,
                    found: b as char,
                    byte_offset: at as usize,
                }
            } else {
                balance(ev.drop_first(), stack.drop_last())
            },
        }
    }
}

/// The verdict on a whole source text.
pub open spec fn verdict(s: Seq<u8>) -> PrevalidateOutcome {
    balance(lexemes(s, 0), Seq::empty())
}

// ---------------------------------------------------------------------
// Bounds
// ---------------------------------------------------------------------

proof fn lemma_line_end(s: Seq<u8>, i: int)
    requires
        0 <= i <= s.len(),
    ensures
        i <= line_end(s, i) <= s.len(),
    decreases s.len() - i,
{
    if i < s.len() && s[i] != NEWLINE {
        lemma_line_end(s, i + 1);
    }
}

proof fn lemma_block_end(s: Seq<u8>, i: int, nest: nat)
    requires
        0 <= i <= s.len(),
    ensures
        block_end(s, i, nest) matches Some(e) ==> i <= e <= s.len(),
    decreases s.len() - i,
{
    if nest == 0 || i + 1 >= s.len() {
    } else if s[i] == SLASH && s[i + 1] == STAR {
        lemma_block_end(s, i + 2, nest + 1);
    } else if s[i] == STAR && s[i + 1] == SLASH {
        lemma_block_end(s, i + 2, (nest - 1) as nat);
    } else {
        lemma_block_end(s, i + 1, nest);
    }
}

proof fn lemma_hash_run(s: Seq<u8>, i: int)
    requires
        0 <= i <= s.len(),
    ensures
        i + hash_run(s, i) <= s.len(),
        forall|k: int| i <= k < i + hash_run(s, i) ==> s[k] == HASH,
    decreases s.len() - i,
{
    if i < s.len() && s[i] == HASH {
        lemma_hash_run(s, i + 1);
    }
}

/// `k` hashes in a row from `i` are part of the run.
proof fn lemma_hash_run_at_least(s: Seq<u8>, i: int, k: nat)
    requires
        0 <= i,
        i + k <= s.len(),
        forall|j: int| i <= j < i + k ==> s[j] == HASH,
    ensures
        hash_run(s, i) >= k,
    decreases k,
{
    if k > 0 {
        assert(s[i] == HASH);
        lemma_hash_run_at_least(s, i + 1, (k - 1) as nat);
    }
}

proof fn lemma_raw_end(s: Seq<u8>, i: int, h: nat)
    requires
        0 <= i <= s.len(),
    ensures
        raw_end(s, i, h) matches Some(e) ==> i < e <= s.len(),
    decreases s.len() - i,
{
    if i < s.len() {
        lemma_hash_run(s, i + 1);
        lemma_raw_end(s, i + 1, h);
    }
}

proof fn lemma_string_end(s: Seq<u8>, i: int)
    requires
        0 <= i <= s.len(),
    ensures
        string_end(s, i) matches Some(e) ==> i < e <= s.len(),
    decreases s.len() - i,
{
    if i >= s.len() {
    } else if s[i] == BACKSLASH && i + 1 < s.len() {
        lemma_string_end(s, i + 2);
    } else if s[i] != QUOTE {
        lemma_string_end(s, i + 1);
    }
}

proof fn lemma_first_tick(s: Seq<u8>, i: int, end: int)
    ensures
        first_tick(s, i, end) matches Some(p) ==> i <= p < end && s[p] == TICK,
    decreases end - i,
{
    if i < end && s[i] != TICK {
        lemma_first_tick(s, i + 1, end);
    }
}

/// A skipped piece is not empty and stays inside the source.
pub proof fn lemma_piece_advances(s: Seq<u8>, i: int)
    requires
        0 <= i < s.len(),
    ensures
        piece_at(s, i) matches Piece::Skip { to } ==> i < to <= s.len(),
{
    let b = s[i];
    if b == SLASH && i + 1 < s.len() && s[i + 1] == SLASH {
        lemma_line_end(s, i + 2);
    } else if b == SLASH && i + 1 < s.len() && s[i + 1] == STAR {
        lemma_block_end(s, i + 2, 1);
    } else if b == LOWER_R && i + 1 < s.len() && (s[i + 1] == QUOTE || s[i + 1] == HASH) {
        lemma_hash_run(s, i + 1);
        let p = i + 1 + hash_run(s, i + 1);
        if p < s.len() {
            lemma_raw_end(s, p + 1, hash_run(s, i + 1));
        }
    } else if b == QUOTE {
        lemma_string_end(s, i + 1);
    } else if b == TICK {
        let end = if s.len() - i < 12 { s.len() as int } else { i + 12 };
        lemma_first_tick(s, i + 3, end);
    }
}

// ---------------------------------------------------------------------
// The scanner
// ---------------------------------------------------------------------

fn skip_line(s: &[u8], from: usize) -> (r: usize)
    requires
        from <= s@.len(),
    ensures
        r == line_end(s@, from as int),
        from <= r <= s@.len(),
{
    let mut i: usize = from;
    while i < s.len() && s[i] != NEWLINE
        invariant
            from <= i <= s@.len(),
            line_end(s@, from as int) == line_end(s@, i as int),
        decreases s@.len() - i,
    {
        i = i + 1;
    }
    i
}

/// `from` stands behind the opening of the comment.
fn skip_block(s: &[u8], from: usize) -> (r: Option<usize>)
    requires
        from <= s@.len(),
    ensures
        match r {
            Some(e) => block_end(s@, from as int, 1) == Some(e as int) && e <= s@.len(),
            None => block_end(s@, from as int, 1) is None,
        },
{
    let mut i: usize = from;
    let mut nest: usize = 1;
    while i < s.len() && s.len() - i > 1 && nest > 0
        invariant
            from <= i <= s@.len(),
            nest <= i - from + 1,
            block_end(s@, from as int, 1) == block_end(s@, i as int, nest as nat),
        decreases s@.len() - i,
    {
        if s[i] == SLASH && s[i + 1] == STAR {
            nest = nest + 1;
            i = i + 2;
        } else if s[i] == STAR && s[i + 1] == SLASH {
            nest = nest - 1;
            i = i + 2;
        } else {
            i = i + 1;
        }
    }
    if nest > 0 {
        None
    } else {
        Some(i)
    }
}

fn count_hashes(s: &[u8], from: usize) -> (r: usize)
    requires
        from <= s@.len(),
    ensures
        r == hash_run(s@, from as int),
        from + r <= s@.len(),
{
    let mut n: usize = 0;
    while n < s.len() - from && s[from + n] == HASH
        invariant
            from + n <= s@.len(),
            hash_run(s@, from as int) == n + hash_run(s@, from + n),
        decreases s@.len() - n,
    {
        n = n + 1;
    }
    n
}

/// `from` stands behind the opening quote.
fn skip_raw(s: &[u8], from: usize, hashes: usize) -> (r: Option<usize>)
    requires
        from <= s@.len(),
    ensures
        match r {
            Some(e) => raw_end(s@, from as int, hashes as nat) == Some(e as int) && e <= s@.len(),
            None => raw_end(s@, from as int, hashes as nat) is None,
        },
{
    let mut i: usize = from;
    while i < s.len()
        invariant
            from <= i <= s@.len(),
            raw_end(s@, from as int, hashes as nat) == raw_end(s@, i as int, hashes as nat),
        decreases s@.len() - i,
    {
        if s[i] == QUOTE && count_hashes(s, i + 1) >= hashes {
            return Some(i + 1 + hashes);
        }
        i = i + 1;
    }
    None
}

/// `from` stands behind the opening quote.
fn skip_string(s: &[u8], from: usize) -> (r: Option<usize>)
    requires
        from <= s@.len(),
    ensures
        match r {
            Some(e) => string_end(s@, from as int) == Some(e as int) && e <= s@.len(),
            None => string_end(s@, from as int) is None,
        },
{
    let mut i: usize = from;
    while i < s.len()
        invariant
            from <= i <= s@.len(),
            string_end(s@, from as int) == string_end(s@, i as int),
        decreases s@.len() - i,
    {
        let c: u8 = s[i];
        if c == BACKSLASH && s.len() - i > 1 {
            i = i + 2;
        } else if c == QUOTE {
            return Some(i + 1);
        } else {
            i = i + 1;
        }
    }
    None
}

/// `at` stands on the opening tick.
fn skip_char(s: &[u8], at: usize) -> (r: Option<usize>)
    requires
        at < s@.len(),
    ensures
        match r {
            Some(e) => char_end(s@, at as int) == Some(e as int) && e <= s@.len(),
            None => char_end(s@, at as int) is None,
        },
{
    let end: usize = if s.len() - at < 12 {
        s.len()
    } else {
        at + 12
    };
    if at + 1 >= end {
        return None;
    }
    if s[at + 1] == BACKSLASH {
        let mut j: usize = at + 2;
        if j < end {
            j = j + 1;
        }
        while j < end
            invariant
                at + 2 <= j,
                end <= s@.len(),
                char_end(s@, at as int) == (match first_tick(s@, j as int, end as int) {
                    Some(p) => Some(p + 1),
                    None => None,
                }),
            decreases end - j,
        {
            if s[j] == TICK {
                return Some(j + 1);
            }
            j = j + 1;
        }
        return None;
    }
    let lead: u8 = s[at + 1];
    let width: usize = if lead < 0xC0 {
        1
    } else if lead < 0xE0 {
        2
    } else if lead < 0xF0 {
        3
    } else {
        4
    };
    if s.len() - at - 1 > width && s[at + 1 + width] == TICK {
        Some(at + 2 + width)
    } else {
        None
    }
}

/// What the scanner found at one place.
enum Found {
    Skip(usize),
    Bracket,
    Open(&'static str),
}

fn scan_piece(s: &[u8], i: usize) -> (r: Found)
    requires
        i < s@.len(),
    ensures
        match r {
            Found::Skip(to) => piece_at(s@, i as int) == (Piece::Skip { to: to as int }) && i < to
                <= s@.len(),
            Found::Bracket => piece_at(s@, i as int) is Bracket,
            Found::Open(kind) => piece_at(s@, i as int) == (Piece::Open { kind }),
        },
{
    proof {
        lemma_piece_advances(s@, i as int);
    }
    let b: u8 = s[i];
    let more: bool = s.len() - i > 1;
    if b == SLASH && more && s[i + 1] == SLASH {
        Found::Skip(skip_line(s, i + 2))
    } else if b == SLASH && more && s[i + 1] == STAR {
        match skip_block(s, i + 2) {
            Some(e) => Found::Skip(e),
            None => Found::Open("block comment"),
        }
    } else if b == LOWER_R && more && (s[i + 1] == QUOTE || s[i + 1] == HASH) {
        let hashes: usize = count_hashes(s, i + 1);
        let p: usize = i + 1 + hashes;
        if p >= s.len() || s[p] != QUOTE {
            Found::Skip(i + 1)
        } else {
            match skip_raw(s, p + 1, hashes) {
                Some(e) => Found::Skip(e),
                None => Found::Open("raw string literal"),
            }
        }
    } else if b == QUOTE {
        match skip_string(s, i + 1) {
            Some(e) => Found::Skip(e),
            None => Found::Open("string literal"),
        }
    } else if b == TICK {
        match skip_char(s, i) {
            Some(e) => Found::Skip(e),
            None => Found::Skip(i + 1),
        }
    } else if b == OPEN_BRACE || b == OPEN_PAREN || b == OPEN_BRACKET || b == CLOSE_BRACE || b
        == CLOSE_PAREN || b == CLOSE_BRACKET {
        Found::Bracket
    } else {
        Found::Skip(i + 1)
    }
}

fn closing_of(open: u8) -> (r: u8)
    ensures
        r == closer(open),
{
    if open == OPEN_BRACE {
        CLOSE_BRACE
    } else if open == OPEN_PAREN {
        CLOSE_PAREN
    } else {
        CLOSE_BRACKET
    }
}

/// The open brackets with their offsets, as the contracts see them.
pub open spec fn stack_view(stack: Seq<(u8, usize)>) -> Seq<(u8, int)> {
    stack.map_values(|e: (u8, usize)| (e.0, e.1 as int))
}

/// Bracket balance and literal check of a whole source text.
pub fn check(src: &str) -> (r: PrevalidateOutcome)
    ensures
        r == verdict(src.spec_bytes()),
        r is Balanced <==> well_nested(src.spec_bytes()),
{
    proof {
        accepted_means_nested(src.spec_bytes());
    }
    let bytes = src.as_bytes();
    let mut stack: Vec<(u8, usize)> = Vec::new();
    let mut i: usize = 0;
    assert(stack_view(stack@) =~= Seq::<(u8, int)>::empty());
    while i < bytes.len()
        invariant
            bytes@ == src.spec_bytes(),
            verdict(bytes@) is Balanced <==> well_nested(bytes@),
            i <= bytes@.len(),
            stack@.len() <= MAX_DEPTH,
            balance(lexemes(bytes@, 0), Seq::empty()) == balance(
                lexemes(bytes@, i as int),
                stack_view(stack@),
            ),
        decreases bytes@.len() - i,
    {
        let ghost before = stack_view(stack@);
        match scan_piece(bytes, i) {
            Found::Skip(to) => {
                i = to;
            },
            Found::Open(kind) => {
                return PrevalidateOutcome::Unterminated { kind, byte_offset: i };
            },
            Found::Bracket => {
                let b: u8 = bytes[i];
                let ghost rest = lexemes(bytes@, i + 1);
                proof {
                    let ev = lexemes(bytes@, i as int);
                    assert(ev.drop_first() =~= rest);
                    assert(ev[0] == (Lexeme::Bracket { b, at: i as int }));
                }
                if b == OPEN_BRACE || b == OPEN_PAREN || b == OPEN_BRACKET {
                    if stack.len() >= MAX_DEPTH {
                        return PrevalidateOutcome::BracketMismatch {
                            expected: ')',
                            found: b as char,
                            byte_offset: i,
                        };
                    }
                    stack.push((b, i));
                    assert(stack_view(stack@) =~= before.push((b, i as int)));
                } else {
                    if stack.len() == 0 {
                        return PrevalidateOutcome::StrayClose { found: b as char, byte_offset: i };
                    }
                    let want: u8 = closing_of(stack[stack.len() - 1].0);
                    if b != want {
                        return PrevalidateOutcome::BracketMismatch {
                            expected: want as char,
                            found: b as char,
                            byte_offset: i,
                        };
                    }
                    stack.pop();
                    assert(stack_view(stack@) =~= before.drop_last());
                }
                i = i + 1;
            },
        }
    }
    if stack.len() > 0 {
        let top: (u8, usize) = stack[stack.len() - 1];
        return PrevalidateOutcome::BracketMismatch {
            expected: closing_of(top.0) as char,
            found: '\0',
            byte_offset: top.1,
        };
    }
    PrevalidateOutcome::Balanced
}

// ---------------------------------------------------------------------
// Laws
// ---------------------------------------------------------------------

/// Brackets that are properly nested: nothing, or a pair around such brackets
/// with such brackets behind it.
pub enum Nest {
    Empty,
    Pair { open: u8, inside: Box<Nest>, behind: Box<Nest> },
}

impl Nest {
    /// The brackets in the order in which they stand.
    pub open spec fn brackets(self) -> Seq<u8>
        decreases self,
    {
        match self {
            Nest::Empty => Seq::empty(),
            Nest::Pair { open, inside, behind } => seq![open] + inside.brackets() + seq![
                closer(open),
            ] + behind.brackets(),
        }
    }

    /// Whether every pair is one of the three kinds, and no more than `depth`
    /// pairs stand inside each other.
    pub open spec fn fits(self, depth: int) -> bool
        decreases self,
    {
        match self {
            Nest::Empty => true,
            Nest::Pair { open, inside, behind } => is_open(open) && depth > 0 && inside.fits(
                depth - 1,
            ) && behind.fits(depth),
        }
    }
}

/// Whether a run of lexemes is these brackets and nothing else.
pub open spec fn reads(ev: Seq<Lexeme>, brackets: Seq<u8>) -> bool {
    ev.len() == brackets.len() && forall|i: int|
        0 <= i < ev.len() ==> (#[trigger] ev[i] matches Lexeme::Bracket { b, .. } && b
            == brackets[i])
}

/// Nested brackets in front of other lexemes leave the open ones as they are.
#[verifier::rlimit(40)]
proof fn lemma_nest_passes(n: Nest, ev: Seq<Lexeme>, rest: Seq<Lexeme>, stack: Seq<(u8, int)>)
    requires
        n.fits(MAX_DEPTH - stack.len()),
        reads(ev, n.brackets()),
    ensures
        balance(ev + rest, stack) == balance(rest, stack),
    decreases n,
{
    match n {
        Nest::Empty => {
            assert(ev + rest =~= rest);
        },
        Nest::Pair { open, inside, behind } => {
            let k = inside.brackets().len() as int;
            let all = n.brackets();
            let len = ev.len() as int;
            let inner = ev.subrange(1, 1 + k);
            let outer = ev.subrange(2 + k, len);
            assert(all[0] == open);
            assert(all[1 + k] == closer(open));
            assert(all.subrange(1, 1 + k) =~= inside.brackets());
            assert(all.subrange(2 + k, len) =~= behind.brackets());
            assert forall|i: int| 0 <= i < k implies (#[trigger] inner[i] matches Lexeme::Bracket {
                b,
                ..
            } && b == inside.brackets()[i]) by {
                assert(inner[i] == ev[i + 1]);
                assert(inside.brackets()[i] == all[i + 1]);
            }
            assert forall|i: int| 0 <= i < outer.len() implies (#[trigger] outer[i]
                matches Lexeme::Bracket { b, .. } && b == behind.brackets()[i]) by {
                assert(outer[i] == ev[i + 2 + k]);
                assert(behind.brackets()[i] == all[i + 2 + k]);
            }
            assert(ev[0] matches Lexeme::Bracket { b, .. } && b == open);
            assert(ev[1 + k] matches Lexeme::Bracket { b, .. } && b == closer(open));
            let at = ev[0]->Bracket_at;
            let more = stack.push((open, at));
            let tail = seq![ev[1 + k]] + (outer + rest);
            assert((ev + rest).drop_first() =~= inner + tail);
            lemma_nest_passes(*inside, inner, tail, more);
            assert(tail[0] == ev[1 + k]);
            assert(tail.drop_first() =~= outer + rest);
            assert(more.drop_last() =~= stack);
            assert(balance(tail, more) == balance(outer + rest, stack));
            lemma_nest_passes(*behind, outer, rest, stack);
        },
    }
}

/// The brackets that are left while those in `stack` are open: nested ones, the
/// one that closes the topmost, nested ones again, and so on.
pub open spec fn unwound(nests: Seq<Nest>, stack: Seq<(u8, int)>) -> Seq<u8>
    decreases stack.len(),
{
    if stack.len() == 0 {
        nests[0].brackets()
    } else {
        nests[0].brackets() + seq![closer(stack.last().0)] + unwound(
            nests.drop_first(),
            stack.drop_last(),
        )
    }
}

/// Every accepted run of lexemes is made of nested brackets and those that
/// close the open ones.
#[verifier::rlimit(40)]
proof fn lemma_unwinds(ev: Seq<Lexeme>, stack: Seq<(u8, int)>) -> (nests: Seq<Nest>)
    requires
        balance(ev, stack) is Balanced,
        stack.len() <= MAX_DEPTH,
    ensures
        nests.len() == stack.len() + 1,
        forall|i: int|
            0 <= i < nests.len() ==> (#[trigger] nests[i]).fits(MAX_DEPTH - stack.len() + i),
        reads(ev, unwound(nests, stack)),
    decreases ev.len(),
{
    if ev.len() == 0 {
        seq![Nest::Empty]
    } else {
        let rest = ev.drop_first();
        assert(ev[0] is Bracket);
        let b = ev[0]->b;
        let at = ev[0]->Bracket_at;
        if is_open(b) {
            let more = stack.push((b, at));
            let under = lemma_unwinds(rest, more);
            assert(more.drop_last() =~= stack);
            let pair = Nest::Pair {
                open: b,
                inside: Box::new(under[0]),
                behind: Box::new(under[1]),
            };
            let nests = seq![pair] + under.subrange(2, under.len() as int);
            assert(under[0].fits(MAX_DEPTH - more.len()));
            assert(under[1].fits(MAX_DEPTH - more.len() + 1));
            assert forall|i: int| 0 <= i < nests.len() implies (#[trigger] nests[i]).fits(
                MAX_DEPTH - stack.len() + i,
            ) by {
                if i > 0 {
                    assert(nests[i] == under[i + 1]);
                }
            }
            let was = unwound(under, more);
            let now = unwound(nests, stack);
            let mid = under.drop_first();
            assert(mid[0] == under[1]);
            assert(more.last() == (b, at));
            assert(was == under[0].brackets() + seq![closer(b)] + unwound(mid, stack));
            assert(nests.drop_first() =~= mid.drop_first());
            assert(pair.brackets() == seq![b] + under[0].brackets() + seq![closer(b)]
                + under[1].brackets());
            assert(nests[0] == pair);
            if stack.len() == 0 {
                assert(was == under[0].brackets() + seq![closer(b)] + under[1].brackets());
                assert(now =~= seq![b] + was);
            } else {
                let end = seq![closer(stack.last().0)] + unwound(
                    mid.drop_first(),
                    stack.drop_last(),
                );
                assert(was =~= under[0].brackets() + seq![closer(b)] + (under[1].brackets() + end));
                assert(now =~= pair.brackets() + end);
                assert(now =~= seq![b] + was);
            }
            lemma_reads_one_more(ev, b, was);
            nests
        } else {
            let less = stack.drop_last();
            let under = lemma_unwinds(rest, less);
            let nests = seq![Nest::Empty] + under;
            assert forall|i: int| 0 <= i < nests.len() implies (#[trigger] nests[i]).fits(
                MAX_DEPTH - stack.len() + i,
            ) by {
                if i > 0 {
                    assert(nests[i] == under[i - 1]);
                }
            }
            assert(nests.drop_first() =~= under);
            assert(unwound(nests, stack) =~= seq![b] + unwound(under, less));
            lemma_reads_one_more(ev, b, unwound(under, less));
            nests
        }
    }
}

proof fn lemma_reads_one_more(ev: Seq<Lexeme>, b: u8, rest: Seq<u8>)
    requires
        ev.len() > 0,
        ev[0] matches Lexeme::Bracket { b: c, .. } && c == b,
        reads(ev.drop_first(), rest),
    ensures
        reads(ev, seq![b] + rest),
{
    assert forall|i: int| 0 <= i < ev.len() implies (#[trigger] ev[i] matches Lexeme::Bracket {
        b: c,
        ..
    } && c == (seq![b] + rest)[i]) by {
        if i > 0 {
            assert(ev.drop_first()[i - 1] == ev[i]);
        }
    }
}

/// Whether every literal and comment of a source is closed and the brackets of
/// its code are properly nested, no deeper than 256.
pub open spec fn well_nested(s: Seq<u8>) -> bool {
    exists|n: Nest| #[trigger] n.fits(256) && reads(lexemes(s, 0), n.brackets())
}

/// A source is accepted exactly when every literal and comment in it is closed
/// and the brackets of its code are properly nested, no deeper than the limit.
pub proof fn accepted_means_nested(s: Seq<u8>)
    ensures
        verdict(s) is Balanced <==> exists|n: Nest| #[trigger]
            n.fits(MAX_DEPTH as int) && reads(lexemes(s, 0), n.brackets()),
{
    let ev = lexemes(s, 0);
    let none = Seq::<(u8, int)>::empty();
    if verdict(s) is Balanced {
        let nests = lemma_unwinds(ev, none);
        assert(nests[0].fits(MAX_DEPTH as int));
        assert(reads(ev, nests[0].brackets()));
    }
    if exists|n: Nest| #[trigger] n.fits(MAX_DEPTH as int) && reads(ev, n.brackets()) {
        let n = choose|n: Nest| #[trigger] n.fits(MAX_DEPTH as int) && reads(ev, n.brackets());
        let nothing = Seq::<Lexeme>::empty();
        lemma_nest_passes(n, ev, nothing, none);
        assert(ev + nothing =~= ev);
        assert(balance(nothing, none) is Balanced);
    }
}

// ---------------------------------------------------------------------
// What is skipped
// ---------------------------------------------------------------------

/// The three kinds of brackets, and nothing else is one.
pub proof fn brackets_are_paired(b: u8)
    ensures
        is_open(b) <==> b == 40 || b == 91 || b == 123,
        is_close(b) <==> b == 41 || b == 93 || b == 125,
        closer(40) == 41,
        closer(91) == 93,
        closer(123) == 125,
{
}

/// A line comment reaches to its first newline, or to the end of the source.
pub proof fn line_comments_end_at_a_newline(s: Seq<u8>, i: int)
    requires
        0 <= i,
        i + 1 < s.len(),
        s[i] == 47,
        s[i + 1] == 47,
    ensures
        piece_at(s, i) matches Piece::Skip { to } && i + 2 <= to <= s.len() && (forall|k: int|
            i + 2 <= k < to ==> #[trigger] s[k] != 10) && (to < s.len() ==> s[to] == 10),
{
    lemma_first_newline(s, i + 2);
}

proof fn lemma_first_newline(s: Seq<u8>, i: int)
    requires
        0 <= i <= s.len(),
    ensures
        i <= line_end(s, i) <= s.len(),
        forall|k: int| i <= k < line_end(s, i) ==> #[trigger] s[k] != 10,
        line_end(s, i) < s.len() ==> s[line_end(s, i)] == 10,
    decreases s.len() - i,
{
    if i < s.len() && s[i] != 10 {
        lemma_first_newline(s, i + 1);
    }
}

/// Whether a comment opens at a place.
pub open spec fn opens_comment(s: Seq<u8>, i: int) -> bool {
    0 <= i && i + 1 < s.len() && s[i] == 47 && s[i + 1] == 42
}

/// Whether a comment closes at a place.
pub open spec fn closes_comment(s: Seq<u8>, i: int) -> bool {
    0 <= i && i + 1 < s.len() && s[i] == 42 && s[i + 1] == 47
}

proof fn lemma_comment_text(s: Seq<u8>, i: int, e: int, nest: nat)
    requires
        0 <= i <= e <= s.len(),
        nest > 0,
        forall|k: int| i <= k < e ==> !#[trigger] opens_comment(s, k) && !closes_comment(s, k),
    ensures
        block_end(s, i, nest) == block_end(s, e, nest) || (block_end(s, i, nest) is None
            && block_end(s, e, nest) is None),
    decreases e - i,
{
    if i < e {
        assert(!opens_comment(s, i));
        if i + 1 < s.len() {
            lemma_comment_text(s, i + 1, e, nest);
        }
    }
}

proof fn lemma_comment_levels(s: Seq<u8>, i: int, a: nat, b: nat)
    requires
        0 <= i <= s.len(),
    ensures
        match block_end(s, i, a) {
            Some(e) => block_end(s, i, a + b) == block_end(s, e, b),
            None => b > 0 || a > 0 ==> block_end(s, i, a + b) is None,
        },
    decreases s.len() - i,
{
    if a > 0 && i + 1 < s.len() {
        if s[i] == SLASH && s[i + 1] == STAR {
            lemma_comment_levels(s, i + 2, a + 1, b);
        } else if s[i] == STAR && s[i + 1] == SLASH {
            lemma_comment_levels(s, i + 2, (a - 1) as nat, b);
            assert((a - 1) as nat + b == (a + b - 1) as nat);
        } else {
            lemma_comment_levels(s, i + 1, a, b);
        }
    }
}

/// A block comment: one without another inside ends behind its first closing
/// mark, one without a closing mark is unterminated, and an inner comment is
/// skipped whole: behind it the outer one goes on as from its beginning. `from`
/// is a place inside the comment, and `e` the first mark from there on.
pub proof fn block_comments_nest(s: Seq<u8>, from: int, e: int)
    requires
        0 <= from <= e <= s.len(),
        forall|k: int| from <= k < e ==> !#[trigger] opens_comment(s, k) && !closes_comment(s, k),
    ensures
        closes_comment(s, e) ==> block_end(s, from, 1) == Some(e + 2),
        e == s.len() ==> block_end(s, from, 1) is None,
        opens_comment(s, e) ==> block_end(s, from, 1) == (match block_end(s, e + 2, 1) {
            Some(inner) => block_end(s, inner, 1),
            None => None,
        }),
        from >= 2 && opens_comment(s, from - 2) ==> piece_at(s, from - 2) == (match block_end(
            s,
            from,
            1,
        ) {
            Some(to) => Piece::Skip { to },
            None => Piece::Open { kind: "block comment" },
        }),
{
    lemma_comment_text(s, from, e, 1);
    if closes_comment(s, e) {
        assert(block_end(s, e + 2, 0) == Some(e + 2));
        assert(block_end(s, e, 1) == block_end(s, e + 2, 0));
    }
    if opens_comment(s, e) {
        lemma_comment_levels(s, e + 2, 1, 1);
        assert(block_end(s, e, 1) == block_end(s, e + 2, 2));
    }
}

/// Whether the byte at `k` is escaped: behind a backslash, from `a` on, that is
/// not escaped itself.
pub open spec fn escaped(s: Seq<u8>, a: int, k: int) -> bool
    decreases k - a,
{
    k > a && s[k - 1] == 92 && !escaped(s, a, k - 1)
}

/// A string ends behind its first quote that is not escaped; without one it is
/// unterminated.
pub proof fn strings_end_at_a_quote(s: Seq<u8>, i: int)
    requires
        0 <= i < s.len(),
        s[i] == 34,
    ensures
        match piece_at(s, i) {
            Piece::Skip { to } => {
                &&& i + 2 <= to <= s.len()
                &&& s[to - 1] == 34
                &&& !escaped(s, i + 1, to - 1)
                &&& forall|k: int| i < k < to - 1 && #[trigger] s[k] == 34 ==> escaped(s, i + 1, k)
            },
            Piece::Open { kind } => kind == "string literal" && forall|k: int|
                i < k < s.len() && #[trigger] s[k] == 34 ==> escaped(s, i + 1, k),
            Piece::Bracket => false,
        },
{
    lemma_string_quote(s, i + 1, i + 1);
}

proof fn lemma_string_quote(s: Seq<u8>, a: int, i: int)
    requires
        0 <= a <= i <= s.len(),
        !escaped(s, a, i),
        forall|k: int| a <= k < i && #[trigger] s[k] == 34 ==> escaped(s, a, k),
    ensures
        match string_end(s, i) {
            Some(e) => {
                &&& i < e <= s.len()
                &&& s[e - 1] == 34
                &&& !escaped(s, a, e - 1)
                &&& forall|k: int| a <= k < e - 1 && #[trigger] s[k] == 34 ==> escaped(s, a, k)
            },
            None => forall|k: int| a <= k < s.len() && #[trigger] s[k] == 34 ==> escaped(s, a, k),
        },
    decreases s.len() - i,
{
    if i < s.len() {
        if s[i] == 92 && i + 1 < s.len() {
            assert(escaped(s, a, i + 1));
            assert(!escaped(s, a, i + 2));
            lemma_string_quote(s, a, i + 2);
        } else if s[i] != 34 {
            if s[i] == 92 {
                assert(i + 1 == s.len());
                assert(string_end(s, i + 1) is None);
            } else {
                assert(!escaped(s, a, i + 1));
                lemma_string_quote(s, a, i + 1);
            }
        }
    }
}

/// Whether a quote at `k` has `h` hashes behind it.
pub open spec fn closes_raw(s: Seq<u8>, k: int, h: int) -> bool {
    &&& 0 <= k
    &&& k + h < s.len()
    &&& s[k] == 34
    &&& forall|j: int| k < j <= k + h ==> #[trigger] s[j] == 35
}

/// A raw string opens with `r`, some hashes and a quote, and ends behind the
/// first quote that has as many hashes behind it; without one it is
/// unterminated.
pub proof fn raw_strings_end_at_their_hashes(s: Seq<u8>, i: int, h: int)
    requires
        0 <= i,
        0 <= h,
        i + 1 + h < s.len(),
        s[i] == 114,
        forall|j: int| i < j <= i + h ==> #[trigger] s[j] == 35,
        s[i + 1 + h] == 34,
    ensures
        match piece_at(s, i) {
            Piece::Skip { to } => {
                let q = to - 1 - h;
                &&& i + 1 + h < q
                &&& to <= s.len()
                &&& closes_raw(s, q, h)
                &&& forall|k: int| i + 1 + h < k < q ==> !#[trigger] closes_raw(s, k, h)
            },
            Piece::Open { kind } => kind == "raw string literal" && forall|k: int|
                i + 1 + h < k ==> !#[trigger] closes_raw(s, k, h),
            Piece::Bracket => false,
        },
{
    lemma_run_is(s, i + 1, h);
    if h > 0 {
        assert(s[i + 1] == 35);
    }
    lemma_raw_quote(s, i + 2 + h, h as nat);
}

proof fn lemma_run_is(s: Seq<u8>, i: int, h: int)
    requires
        0 <= i,
        0 <= h,
        i + h < s.len(),
        forall|j: int| i <= j < i + h ==> #[trigger] s[j] == 35,
        s[i + h] != 35,
    ensures
        hash_run(s, i) == h,
    decreases h,
{
    if h > 0 {
        assert(s[i] == 35);
        lemma_run_is(s, i + 1, h - 1);
    }
}

proof fn lemma_closes_raw(s: Seq<u8>, k: int, h: nat)
    requires
        0 <= k < s.len(),
        s[k] == 34,
    ensures
        closes_raw(s, k, h as int) <==> hash_run(s, k + 1) >= h,
{
    lemma_hash_run(s, k + 1);
    if hash_run(s, k + 1) >= h {
        assert forall|j: int| k < j <= k + h implies #[trigger] s[j] == 35 by {
            assert(s[j] == HASH);
        }
    }
    if closes_raw(s, k, h as int) {
        assert forall|j: int| k + 1 <= j < k + 1 + h implies s[j] == HASH by {
            assert(s[j] == 35);
        }
        lemma_hash_run_at_least(s, k + 1, h);
    }
}

proof fn lemma_raw_quote(s: Seq<u8>, i: int, h: nat)
    requires
        0 <= i <= s.len(),
    ensures
        match raw_end(s, i, h) {
            Some(e) => {
                let q = e - 1 - h;
                i <= q && e <= s.len() && closes_raw(s, q, h as int) && forall|k: int|
                    i <= k < q ==> !#[trigger] closes_raw(s, k, h as int)
            },
            None => forall|k: int| i <= k ==> !#[trigger] closes_raw(s, k, h as int),
        },
    decreases s.len() - i,
{
    if i < s.len() {
        if s[i] == 34 {
            lemma_closes_raw(s, i, h);
        }
        if !(s[i] == QUOTE && hash_run(s, i + 1) >= h) {
            assert(!closes_raw(s, i, h as int));
            lemma_raw_quote(s, i + 1, h);
        }
    }
}

/// A tick before one character, of any width in UTF-8, and another tick is a
/// character literal; a tick before a backslash and an escape of up to nine
/// bytes, the escaped character being no matter what, is one too; and before an
/// ASCII character without a tick behind it a tick stands alone, as before a
/// lifetime.
pub proof fn ticks_close_characters(s: Seq<u8>, i: int, w: int)
    requires
        0 <= i,
        i + 1 < s.len(),
        s[i] == 39,
    ensures
        s[i + 1] != 92 && 1 <= w <= 4 && is_lead(s[i + 1], w) && i + 1 + w < s.len() && s[i + 1 + w]
            == 39 ==> piece_at(s, i) == (Piece::Skip { to: i + 2 + w }),
        s[i + 1] < 128 && s[i + 1] != 92 && !(i + 2 < s.len() && s[i + 2] == 39) ==> piece_at(s, i)
            == (Piece::Skip { to: i + 1 }),
        s[i + 1] == 92 && 3 <= w < 12 && i + w < s.len() && s[i + w] == 39 && (forall|k: int|
            i + 3 <= k < i + w ==> #[trigger] s[k] != 39) ==> piece_at(s, i) == (Piece::Skip {
            to: i + w + 1,
        }),
        s[i + 1] == 92 && (forall|k: int|
            i + 3 <= k < i + 12 && k < s.len() ==> #[trigger] s[k] != 39) ==> piece_at(s, i) == (
        Piece::Skip { to: i + 1 }),
{
    let end = if s.len() - i < 12 { s.len() as int } else { i + 12 };
    if s[i + 1] == 92 {
        if 3 <= w < 12 && i + w < s.len() && s[i + w] == 39 && (forall|k: int|
            i + 3 <= k < i + w ==> #[trigger] s[k] != 39) {
            lemma_tick_at(s, i + 3, i + w, end);
        }
        lemma_first_tick(s, i + 3, end);
    }
}

/// Whether a byte leads a character of `w` bytes in UTF-8.
pub open spec fn is_lead(b: u8, w: int) -> bool {
    (w == 1 && b < 0x80) || (w == 2 && 0xC0 <= b < 0xE0) || (w == 3 && 0xE0 <= b < 0xF0) || (w == 4
        && 0xF0 <= b)
}

proof fn lemma_tick_at(s: Seq<u8>, i: int, t: int, end: int)
    requires
        i <= t < end,
        s[t] == 39,
        forall|k: int| i <= k < t ==> #[trigger] s[k] != 39,
    ensures
        first_tick(s, i, end) == Some(t),
    decreases t - i,
{
    if i < t {
        assert(s[i] != 39);
        lemma_tick_at(s, i + 1, t, end);
    }
}

/// In code a bracket is a bracket, and a byte that opens nothing is passed over
/// alone.
pub proof fn other_bytes_stand_alone(s: Seq<u8>, i: int)
    requires
        0 <= i < s.len(),
    ensures
        s[i] == 40 || s[i] == 41 || s[i] == 91 || s[i] == 93 || s[i] == 123 || s[i] == 125
            ==> piece_at(s, i) is Bracket,
        piece_at(s, i) is Bracket ==> s[i] == 40 || s[i] == 41 || s[i] == 91 || s[i] == 93 || s[i]
            == 123 || s[i] == 125,
        s[i] != 47 && s[i] != 114 && s[i] != 34 && s[i] != 39 && !(piece_at(s, i) is Bracket)
            ==> piece_at(s, i) == (Piece::Skip { to: i + 1 }),
        s[i] == 47 && (i + 1 == s.len() || (s[i + 1] != 47 && s[i + 1] != 42)) ==> piece_at(s, i)
            == (Piece::Skip { to: i + 1 }),
        s[i] == 114 && (i + 1 == s.len() || (s[i + 1] != 34 && s[i + 1] != 35)) ==> piece_at(s, i)
            == (Piece::Skip { to: i + 1 }),
        s[i] == 39 && i + 1 == s.len() ==> piece_at(s, i) == (Piece::Skip { to: i + 1 }),
{
}

// ---------------------------------------------------------------------
// Where a piece stands does not matter
// ---------------------------------------------------------------------

/// A piece further back.
pub open spec fn piece_moved(p: Piece, by: int) -> Piece {
    match p {
        Piece::Skip { to } => Piece::Skip { to: to + by },
        Piece::Bracket => Piece::Bracket,
        Piece::Open { kind } => Piece::Open { kind },
    }
}

/// Lexemes further back.
pub open spec fn moved(ev: Seq<Lexeme>, by: int) -> Seq<Lexeme> {
    Seq::new(
        ev.len(),
        |i: int|
            match ev[i] {
                Lexeme::Bracket { b, at } => Lexeme::Bracket { b, at: at + by },
                Lexeme::Unterminated { kind, at } => Lexeme::Unterminated { kind, at: at + by },
            },
    )
}

#[verifier::rlimit(40)]
proof fn lemma_ends_move(p: Seq<u8>, q: Seq<u8>, i: int, nest: nat, h: nat)
    requires
        0 <= i <= q.len(),
    ensures
        line_end(p + q, p.len() + i) == p.len() + line_end(q, i),
        hash_run(p + q, p.len() + i) == hash_run(q, i),
        block_end(p + q, p.len() + i, nest) == (match block_end(q, i, nest) {
            Some(e) => Some(p.len() + e),
            None => None,
        }),
        string_end(p + q, p.len() + i) == (match string_end(q, i) {
            Some(e) => Some(p.len() + e),
            None => None,
        }),
        raw_end(p + q, p.len() + i, h) == (match raw_end(q, i, h) {
            Some(e) => Some(p.len() + e),
            None => None,
        }),
    decreases q.len() - i,
{
    let s = p + q;
    let n = p.len() as int;
    if i < q.len() {
        assert(s[n + i] == q[i]);
        lemma_ends_move(p, q, i + 1, nest, h);
        if i + 1 < q.len() {
            assert(s[n + i + 1] == q[i + 1]);
            lemma_ends_move(p, q, i + 2, nest + 1, h);
            if nest > 0 {
                lemma_ends_move(p, q, i + 2, (nest - 1) as nat, h);
            }
        }
    }
}

proof fn lemma_tick_moves(p: Seq<u8>, q: Seq<u8>, i: int, end: int)
    requires
        0 <= i,
        end <= q.len(),
    ensures
        first_tick(p + q, p.len() + i, p.len() + end) == (match first_tick(q, i, end) {
            Some(t) => Some(p.len() + t),
            None => None,
        }),
    decreases end - i,
{
    if i < end {
        assert((p + q)[p.len() + i] == q[i]);
        lemma_tick_moves(p, q, i + 1, end);
    }
}

#[verifier::rlimit(40)]
proof fn lemma_piece_moves(p: Seq<u8>, q: Seq<u8>, i: int)
    requires
        0 <= i < q.len(),
    ensures
        piece_at(p + q, p.len() + i) == piece_moved(piece_at(q, i), p.len() as int),
{
    let s = p + q;
    let n = p.len() as int;
    assert(s[n + i] == q[i]);
    lemma_ends_move(p, q, i + 1, 1, 0);
    if i + 1 < q.len() {
        assert(s[n + i + 1] == q[i + 1]);
        lemma_ends_move(p, q, i + 2, 1, 0);
        let h = hash_run(q, i + 1);
        lemma_hash_run(q, i + 1);
        let at = i + 1 + h;
        if at < q.len() {
            assert(s[n + at] == q[at]);
            lemma_ends_move(p, q, at + 1, 1, h);
        }
        let end = if q.len() - i < 12 { q.len() as int } else { i + 12 };
        lemma_tick_moves(p, q, i + 3, end);
        let j = i + 1 + utf8_width(q[i + 1]);
        if j < q.len() {
            assert(s[n + j] == q[j]);
        }
    }
}

/// What the rest of a source holds does not depend on what stands before it.
#[verifier::rlimit(40)]
pub proof fn lexemes_move(p: Seq<u8>, q: Seq<u8>, i: int)
    requires
        0 <= i <= q.len(),
    ensures
        lexemes(p + q, p.len() + i) == moved(lexemes(q, i), p.len() as int),
    decreases q.len() - i,
{
    let n = p.len() as int;
    if i < q.len() {
        lemma_piece_advances(q, i);
        lemma_piece_advances(p + q, n + i);
        lemma_piece_moves(p, q, i);
        assert((p + q)[n + i] == q[i]);
        match piece_at(q, i) {
            Piece::Skip { to } => lexemes_move(p, q, to),
            Piece::Bracket => {
                lexemes_move(p, q, i + 1);
                assert(lexemes(p + q, n + i) =~= moved(lexemes(q, i), n));
            },
            Piece::Open { .. } => {
                assert(lexemes(p + q, n + i) =~= moved(lexemes(q, i), n));
            },
        }
    } else {
        assert(lexemes(p + q, n + i) =~= moved(lexemes(q, i), n));
    }
}

/// A line comment and its newline hide nothing of the rest and nothing more.
#[verifier::rlimit(40)]
pub proof fn line_comments_hide_themselves(text: Seq<u8>, rest: Seq<u8>)
    requires
        !text.contains(10),
    ensures
        lexemes(seq![47u8, 47] + text + seq![10u8] + rest, 0) == moved(
            lexemes(rest, 0),
            text.len() as int + 3,
        ),
{
    let p = seq![47u8, 47] + text;
    let s = p + seq![10u8] + rest;
    assert(s[0] == 47 && s[1] == 47);
    line_comments_end_at_a_newline(s, 0);
    let to = piece_at(s, 0)->to;
    let n = text.len() + 2;
    assert(s[n as int] == 10);
    assert(to <= n);
    if to < n {
        assert(s[to] == text[to - 2]);
        assert(text.contains(text[to - 2]));
    }
    lemma_piece_advances(s, 0);
    other_bytes_stand_alone(s, to);
    lemma_piece_advances(s, to);
    let front = p + seq![10u8];
    assert(to == n);
    assert(front.len() == n + 1);
    assert(s[to] == 10);
    assert(piece_at(s, to) == (Piece::Skip { to: to + 1 }));
    lexemes_follow_the_pieces(s, 0);
    lexemes_follow_the_pieces(s, to);
    assert(lexemes(s, 0) == lexemes(s, to + 1));
    lexemes_move(front, rest, 0);
}

/// A bracket of the code is reported first, with its place, and the rest
/// follows; a skipped piece reports nothing; and nothing follows an
/// unterminated one.
pub proof fn lexemes_follow_the_pieces(s: Seq<u8>, i: int)
    requires
        0 <= i < s.len(),
    ensures
        piece_at(s, i) is Bracket ==> lexemes(s, i).len() == 1 + lexemes(s, i + 1).len() && lexemes(
            s,
            i,
        )[0] == (Lexeme::Bracket { b: s[i], at: i }) && lexemes(s, i).drop_first() == lexemes(
            s,
            i + 1,
        ),
        piece_at(s, i) matches Piece::Skip { to } ==> lexemes(s, i) == lexemes(s, to),
        piece_at(s, i) matches Piece::Open { kind } ==> lexemes(s, i) == seq![
            Lexeme::Unterminated { kind, at: i },
        ],
        lexemes(s, s.len() as int).len() == 0,
{
    lemma_piece_advances(s, i);
    assert(lexemes(s, i).drop_first() =~= lexemes(s, i + 1) || !(piece_at(s, i) is Bracket));
}

// ---------------------------------------------------------------------
// The first fault is reported
// ---------------------------------------------------------------------

/// Whether a run of lexemes leaves exactly these brackets open: nested ones,
/// the first open one, nested ones, the next open one, and so on.
pub open spec fn leaves_open(ev: Seq<Lexeme>, stack: Seq<(u8, int)>) -> bool
    decreases stack.len(),
{
    if stack.len() == 0 {
        exists|n: Nest| #[trigger] n.fits(256) && reads(ev, n.brackets())
    } else {
        exists|k: int, n: Nest|
            {
                &&& 0 <= k < ev.len()
                &&& leaves_open(ev.subrange(0, k), stack.drop_last())
                &&& ev[k] == (Lexeme::Bracket { b: stack.last().0, at: stack.last().1 })
                &&& is_open(stack.last().0)
                &&& #[trigger] n.fits(256 - stack.len())
                &&& reads(#[trigger] ev.subrange(k + 1, ev.len() as int), n.brackets())
            }
    }
}

#[verifier::rlimit(40)]
proof fn lemma_left_open(ev: Seq<Lexeme>, rest: Seq<Lexeme>, stack: Seq<(u8, int)>)
    requires
        leaves_open(ev, stack),
        stack.len() <= 256,
    ensures
        balance(ev + rest, Seq::empty()) == balance(rest, stack),
    decreases stack.len(),
{
    if stack.len() == 0 {
        let n = choose|n: Nest| #[trigger] n.fits(256) && reads(ev, n.brackets());
        lemma_nest_passes(n, ev, rest, stack);
        assert(stack =~= Seq::empty());
    } else {
        let (k, n) = choose|k: int, n: Nest|
            {
                &&& 0 <= k < ev.len()
                &&& leaves_open(ev.subrange(0, k), stack.drop_last())
                &&& ev[k] == (Lexeme::Bracket { b: stack.last().0, at: stack.last().1 })
                &&& is_open(stack.last().0)
                &&& #[trigger] n.fits(256 - stack.len())
                &&& reads(#[trigger] ev.subrange(k + 1, ev.len() as int), n.brackets())
            };
        let pre = ev.subrange(0, k);
        let post = ev.subrange(k + 1, ev.len() as int);
        let tail = seq![ev[k]] + (post + rest);
        let less = stack.drop_last();
        assert(ev + rest =~= pre + tail);
        lemma_left_open(pre, tail, less);
        assert(tail[0] == ev[k]);
        assert(tail.drop_first() =~= post + rest);
        assert(less.push(stack.last()) =~= stack);
        assert(balance(tail, less) == balance(post + rest, stack));
        lemma_nest_passes(n, post, rest, stack);
    }
}

/// The first fault is reported, with its place: `pre` are the lexemes before
/// it, which leave `stack` open.
#[verifier::rlimit(40)]
pub proof fn first_fault_is_reported(
    s: Seq<u8>,
    pre: Seq<Lexeme>,
    x: Lexeme,
    rest: Seq<Lexeme>,
    stack: Seq<(u8, int)>,
)
    requires
        leaves_open(pre, stack),
        stack.len() <= 256,
    ensures
        lexemes(s, 0) == pre ==> verdict(s) == (if stack.len() == 0 {
            PrevalidateOutcome::Balanced
        } else {
            PrevalidateOutcome::BracketMismatch {
                expected: closer(stack.last().0) as char,
                found: '\0',
                byte_offset: stack.last().1 as usize,
            }
        }),
        lexemes(s, 0) == pre + seq![x] + rest ==> match x {
            Lexeme::Unterminated { kind, at } => verdict(s) == (PrevalidateOutcome::Unterminated {
                kind,
                byte_offset: at as usize,
            }),
            Lexeme::Bracket { b, at } => {
                &&& is_open(b) && stack.len() == 256 ==> verdict(s) == (
                PrevalidateOutcome::BracketMismatch {
                    expected: ')',
                    found: b as char,
                    byte_offset: at as usize,
                })
                &&& !is_open(b) && stack.len() == 0 ==> verdict(s) == (
                PrevalidateOutcome::StrayClose { found: b as char, byte_offset: at as usize })
                &&& !is_open(b) && stack.len() > 0 && b != closer(stack.last().0) ==> verdict(s)
                    == (PrevalidateOutcome::BracketMismatch {
                    expected: closer(stack.last().0) as char,
                    found: b as char,
                    byte_offset: at as usize,
                })
            },
        },
{
    let none = Seq::<Lexeme>::empty();
    let open = Seq::<(u8, int)>::empty();
    lemma_left_open(pre, none, stack);
    assert(pre + none =~= pre);
    let tail = seq![x] + rest;
    lemma_left_open(pre, tail, stack);
    assert(pre + tail =~= pre + seq![x] + rest);
    assert(tail[0] == x);
}

/// An `r` with hashes that no quote follows begins no string, as before a raw
/// identifier; and a tick before a character of several bytes without another
/// tick behind it stands alone.
pub proof fn lone_marks_stand_alone(s: Seq<u8>, i: int, h: int, w: int)
    requires
        0 <= i < s.len(),
    ensures
        s[i] == 114 && 1 <= h && i + h < s.len() && (forall|j: int|
            i < j <= i + h ==> #[trigger] s[j] == 35) && (i + 1 + h == s.len() || (s[i + 1 + h]
            != 35 && s[i + 1 + h] != 34)) ==> piece_at(s, i) == (Piece::Skip { to: i + 1 }),
        s[i] == 39 && i + 1 < s.len() && is_lead(s[i + 1], w) && s[i + 1] != 92 && !(i + 1 + w
            < s.len() && s[i + 1 + w] == 39) ==> piece_at(s, i) == (Piece::Skip { to: i + 1 }),
{
    if s[i] == 114 && 1 <= h && i + h < s.len() && (forall|j: int|
        i < j <= i + h ==> #[trigger] s[j] == 35) && (i + 1 + h == s.len() || (s[i + 1 + h] != 35
        && s[i + 1 + h] != 34)) {
        assert(s[i + 1] == 35);
        lemma_run_ends(s, i + 1, h);
    }
}

proof fn lemma_run_ends(s: Seq<u8>, i: int, h: int)
    requires
        0 <= i,
        0 <= h,
        i + h <= s.len(),
        forall|j: int| i <= j < i + h ==> #[trigger] s[j] == 35,
        i + h == s.len() || s[i + h] != 35,
    ensures
        hash_run(s, i) == h,
    decreases h,
{
    if h > 0 {
        assert(s[i] == 35);
        lemma_run_ends(s, i + 1, h - 1);
    }
}

/// What is said of each outcome.
pub proof fn outcomes_in_words(expected: char, found: char, byte_offset: usize, kind: &'static str)
    ensures
        PrevalidateOutcome::Balanced.diagnostic_chars() == "ok"@,
        (PrevalidateOutcome::BracketMismatch { expected, found, byte_offset }).diagnostic_chars()
            == "[prevalidate] bracket mismatch at byte "@ + dec_chars(byte_offset as nat)
            + ": expected '"@.push(expected) + "', found '"@.push(found).push('\''),
        (PrevalidateOutcome::Unterminated { kind, byte_offset }).diagnostic_chars()
            == "[prevalidate] unterminated "@ + kind@ + " starting at byte "@ + dec_chars(
            byte_offset as nat,
        ),
        (PrevalidateOutcome::StrayClose { found, byte_offset }).diagnostic_chars()
            == "[prevalidate] stray closing '"@.push(found) + "' at byte "@ + dec_chars(
            byte_offset as nat,
        ) + " with no matching open"@,
{
}

} // verus!
