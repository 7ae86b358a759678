//! The buffer through which generated text reaches the compositor, and the
//! sieve that lets only whole characters into it.
use vstd::prelude::*;
use vstd::slice::slice_subrange;
use vstd::utf8::*;

use crate::text::extend_bytes;

verus! {

broadcast use vstd::seq_lib::group_seq_properties;

/// Bytes of text that the buffer has room for.
pub const RING_DATA_MAX: usize = 16368;

/// Generation goes on.
pub const STATUS_GENERATING: u32 = 0;

/// Generation is over.
pub const STATUS_DONE: u32 = 1;

/// Generation failed.
pub const STATUS_ERROR: u32 = 2;

/// No tool call is under way.
pub const TOOL_IDLE: u32 = 0;

/// Generation waits for a tool.
pub const TOOL_PAUSED: u32 = 1;

/// The tool's result stands behind the text.
pub const TOOL_READY: u32 = 2;

/// The streaming buffer. The text is linear: it starts at the first byte and
/// only grows.
pub struct TokenRing {
    /// Bytes of text so far.
    pub write_idx: u32,
    /// Generating, done or failed.
    pub status: u32,
    /// Idle, paused for a tool, or the tool's result is ready.
    pub tool_state: u32,
    /// Bytes of the tool's result, which stands at `write_idx`.
    pub tool_result_len: u32,
    pub data: Vec<u8>,
}

/// What the compositor sees of the buffer.
pub struct RingView {
    pub text: Seq<u8>,
    pub status: u32,
    pub tool_state: u32,
    pub tool_result_len: u32,
}

impl View for TokenRing {
    type V = RingView;

    open spec fn view(&self) -> RingView {
        RingView {
            text: self.text(),
            status: self.status,
            tool_state: self.tool_state,
            tool_result_len: self.tool_result_len,
        }
    }
}

impl RingView {
    /// Whether so many bytes more still leave the buffer unfilled.
    pub open spec fn has_room(self, len: nat) -> bool {
        self.text.len() + len < RING_DATA_MAX
    }

    /// The buffer with more text, as long as there is room for it.
    pub open spec fn with(self, bytes: Seq<u8>) -> RingView {
        if self.has_room(bytes.len()) {
            RingView { text: self.text + bytes, ..self }
        } else {
            self
        }
    }
}

impl TokenRing {
    pub open spec fn wf(self) -> bool {
        self.data@.len() == RING_DATA_MAX && self.write_idx <= RING_DATA_MAX
    }

    /// The text that the compositor sees.
    pub open spec fn text(self) -> Seq<u8> {
        self.data@.subrange(0, self.write_idx as int)
    }

    /// Starts a new text.
    pub fn restart(&mut self)
        requires
            old(self).wf(),
        ensures
            final(self).wf(),
            *final(self) == (TokenRing {
                write_idx: 0,
                status: STATUS_GENERATING,
                ..*old(self)
            }),
    {
        self.write_idx = 0;
        self.status = STATUS_GENERATING;
    }

    /// Appends to the text. Where there is no room, nothing is written.
    pub fn append(&mut self, bytes: &[u8]) -> (r: bool)
        requires
            old(self).wf(),
        ensures
            final(self).wf(),
            r == old(self)@.has_room(bytes@.len()),
            final(self)@ == old(self)@.with(bytes@),
            !r ==> *final(self) == *old(self),
    {
        let at: usize = self.write_idx as usize;
        if bytes.len() >= RING_DATA_MAX - at {
            return false;
        }
        let ghost before = self.data@;
        let mut i: usize = 0;
        while i < bytes.len()
            invariant
                i <= bytes.len(),
                at + bytes@.len() < RING_DATA_MAX,
                self.write_idx == at,
                self.write_idx == old(self).write_idx,
                self.status == old(self).status,
                self.tool_state == old(self).tool_state,
                self.tool_result_len == old(self).tool_result_len,
                self.data@.len() == RING_DATA_MAX,
                before == old(self).data@,
                before.len() == RING_DATA_MAX,
                self.data@.subrange(0, at + i) == before.subrange(0, at as int) + bytes@.subrange(
                    0,
                    i as int,
                ),
            decreases bytes.len() - i,
        {
            let ghost had = self.data@;
            self.data[at + i] = bytes[i];
            i = i + 1;
            assert(self.data@.subrange(0, at + i) =~= had.subrange(0, at + i - 1).push(
                bytes@[i - 1],
            ));
            assert(bytes@.subrange(0, i as int) =~= bytes@.subrange(0, i - 1).push(bytes@[i - 1]));
        }
        self.write_idx = (at + bytes.len()) as u32;
        assert(bytes@.subrange(0, bytes@.len() as int) =~= bytes@);
        true
    }

    /// Takes a tool's result that stands behind the text into the text.
    pub fn take_result(&mut self, len: usize)
        requires
            old(self).wf(),
            old(self).write_idx + len <= RING_DATA_MAX,
        ensures
            final(self).wf(),
            *final(self) == (TokenRing {
                write_idx: (old(self).write_idx + len) as u32,
                ..*old(self)
            }),
            final(self).text() == old(self).text() + old(self).data@.subrange(
                old(self).write_idx as int,
                old(self).write_idx + len,
            ),
    {
        self.write_idx = (self.write_idx as usize + len) as u32;
        assert(self.text() =~= old(self).text() + old(self).data@.subrange(
            old(self).write_idx as int,
            old(self).write_idx + len,
        ));
    }
}

// ---------------------------------------------------------------------
// Whole characters
// ---------------------------------------------------------------------

/// The length of the longest start of `s` within the first `n` bytes that is
/// valid UTF-8.
pub open spec fn valid_prefix(s: Seq<u8>, n: int) -> int
    decreases n,
{
    if n <= 0 {
        0
    } else if valid_utf8(s.subrange(0, n)) {
        n
    } else {
        valid_prefix(s, n - 1)
    }
}

/// The length is that of a valid start, and every longer start is invalid.
pub proof fn valid_prefix_is_longest(s: Seq<u8>, n: int)
    requires
        0 <= n <= s.len(),
    ensures
        0 <= valid_prefix(s, n) <= n,
        valid_utf8(s.subrange(0, valid_prefix(s, n))),
        forall|k: int|
            valid_prefix(s, n) < k <= n ==> !valid_utf8(#[trigger] s.subrange(0, k)),
    decreases n,
{
    if n > 0 && !valid_utf8(s.subrange(0, n)) {
        valid_prefix_is_longest(s, n - 1);
    }
}

/// The length of the longest start that is valid UTF-8.
pub fn valid_utf8_prefix_len(data: &[u8]) -> (r: usize)
    ensures
        r == valid_prefix(data@, data@.len() as int),
        r <= data@.len(),
{
    let mut len: usize = data.len();
    while len > 0
        invariant
            len <= data@.len(),
            valid_prefix(data@, data@.len() as int) == valid_prefix(data@, len as int),
        decreases len,
    {
        if core::str::from_utf8(slice_subrange(data, 0, len)).is_ok() {
            return len;
        }
        len = len - 1;
    }
    0
}

/// What passes the sieve: the valid start; and where more bytes are left behind
/// it than one character can have, what passes of them without the first,
/// which no later byte can complete.
pub open spec fn passed(s: Seq<u8>) -> Seq<u8>
    decreases s.len(),
{
    let n = valid_prefix(s, s.len() as int);
    if !(0 <= n && n + 4 <= s.len()) {
        s.subrange(0, n)
    } else {
        s.subrange(0, n) + passed(s.subrange(n + 1, s.len() as int))
    }
}

/// What the sieve holds back: the start of a character.
pub open spec fn held(s: Seq<u8>) -> Seq<u8>
    decreases s.len(),
{
    let n = valid_prefix(s, s.len() as int);
    if !(0 <= n && n + 4 <= s.len()) {
        s.subrange(n, s.len() as int)
    } else {
        held(s.subrange(n + 1, s.len() as int))
    }
}

/// Only valid UTF-8 passes the sieve, and never are more than three bytes held
/// back.
pub proof fn sieve_passes_text(s: Seq<u8>)
    ensures
        valid_utf8(passed(s)),
        held(s).len() < 4,
        passed(s).len() + held(s).len() <= s.len(),
    decreases s.len(),
{
    let n = valid_prefix(s, s.len() as int);
    valid_prefix_is_longest(s, s.len() as int);
    if n + 4 <= s.len() {
        let rest = s.subrange(n + 1, s.len() as int);
        sieve_passes_text(rest);
        valid_utf8_concat(s.subrange(0, n), passed(rest));
    }
}

/// A whole text passes as it is.
pub proof fn whole_text_passes(s: Seq<u8>)
    requires
        valid_utf8(s),
    ensures
        passed(s) == s,
        held(s) == Seq::<u8>::empty(),
{
    assert(s.subrange(0, s.len() as int) =~= s);
    assert(s.subrange(s.len() as int, s.len() as int) =~= Seq::<u8>::empty());
}

/// A start of a valid text comes within three bytes of a valid start.
proof fn lemma_near_boundary(w: Seq<u8>, i: int) -> (b: int)
    requires
        valid_utf8(w),
        0 <= i <= w.len(),
    ensures
        0 <= b <= i <= b + 3,
        valid_utf8(w.subrange(0, b)),
    decreases w.len(),
{
    if i == 0 {
        0
    } else {
        let k = length_of_first_scalar(w);
        if i < k {
            0
        } else {
            let rest = pop_first_scalar(w);
            assert(rest.len() < w.len());
            let b = lemma_near_boundary(rest, i - k);
            let head = take_first_scalar(w);
            reveal_with_fuel(valid_utf8, 2);
            assert(pop_first_scalar(head) =~= Seq::<u8>::empty());
            assert(valid_utf8(head));
            valid_utf8_concat(head, rest.subrange(0, b));
            assert(head + rest.subrange(0, b) =~= w.subrange(0, b + k));
            b + k
        }
    }
}

/// A text that comes in two pieces, cut anywhere, passes whole.
pub proof fn cut_text_passes_whole(a: Seq<u8>, b: Seq<u8>)
    requires
        valid_utf8(a + b),
    ensures
        passed(a) + passed(held(a) + b) == a + b,
        held(held(a) + b) == Seq::<u8>::empty(),
        passed(a) + held(a) == a,
        valid_utf8(held(a) + b),
{
    let w = a + b;
    let i = a.len() as int;
    let near = lemma_near_boundary(w, i);
    assert(a.subrange(0, near) =~= w.subrange(0, near));
    let n = valid_prefix(a, i);
    valid_prefix_is_longest(a, i);
    assert(near <= n) by {
        if n < near {
            assert(!valid_utf8(a.subrange(0, near)));
        }
    }
    assert(passed(a) == a.subrange(0, n) && held(a) == a.subrange(n, i));
    assert(held(a) + b =~= w.subrange(n, w.len() as int));
    assert(a.subrange(0, n) =~= w.subrange(0, n));
    if !valid_utf8(w.subrange(n, w.len() as int)) {
        partial_valid_partial_invalid_utf8(w, n);
    }
    whole_text_passes(w.subrange(n, w.len() as int));
    assert(w.subrange(0, n) + w.subrange(n, w.len() as int) =~= w);
    assert(a.subrange(0, n) + a.subrange(n, i) =~= a);
}

/// Pieces one after the other.
pub open spec fn flat(pieces: Seq<Seq<u8>>) -> Seq<u8>
    decreases pieces.len(),
{
    if pieces.len() == 0 {
        Seq::empty()
    } else {
        pieces[0] + flat(pieces.drop_first())
    }
}

/// What passes of pieces that come one after the other, and what is held back
/// behind the last, where `back` was held back before the first.
pub open spec fn sieved(back: Seq<u8>, pieces: Seq<Seq<u8>>) -> (Seq<u8>, Seq<u8>)
    decreases pieces.len(),
{
    if pieces.len() == 0 {
        (Seq::empty(), back)
    } else {
        let (text, end) = sieved(held(back + pieces[0]), pieces.drop_first());
        (passed(back + pieces[0]) + text, end)
    }
}

proof fn lemma_pieces_pass(back: Seq<u8>, pieces: Seq<Seq<u8>>)
    requires
        valid_utf8(back + flat(pieces)),
        pieces.len() > 0,
    ensures
        sieved(back, pieces) == (back + flat(pieces), Seq::<u8>::empty()),
    decreases pieces.len(),
{
    let a = back + pieces[0];
    let rest = pieces.drop_first();
    assert(back + flat(pieces) =~= a + flat(rest));
    if rest.len() == 0 {
        assert(a + flat(rest) =~= a);
        whole_text_passes(a);
        assert(passed(a) + sieved(held(a), rest).0 =~= a);
    } else {
        cut_text_passes_whole(a, flat(rest));
        lemma_pieces_pass(held(a), rest);
        assert(passed(a) + (held(a) + flat(rest)) =~= passed(a) + held(a) + flat(rest));
    }
}

/// A text that comes in any number of pieces, cut anywhere, passes whole, and
/// nothing is held back behind it.
pub proof fn pieces_pass_whole(pieces: Seq<Seq<u8>>)
    requires
        valid_utf8(flat(pieces)),
    ensures
        sieved(Seq::empty(), pieces) == (flat(pieces), Seq::<u8>::empty()),
{
    let none = Seq::<u8>::empty();
    assert(none + flat(pieces) =~= flat(pieces));
    if pieces.len() > 0 {
        lemma_pieces_pass(none, pieces);
    }
}

/// The sieve: the bytes that it holds back.
pub struct TextSieve {
    pub held: Vec<u8>,
}

impl TextSieve {
    pub fn new() -> (r: Self)
        ensures
            r.held@ == Seq::<u8>::empty(),
    {
        TextSieve { held: Vec::new() }
    }

    /// Takes bytes in and hands out the text that passes.
    pub fn take_in(&mut self, bytes: &[u8]) -> (r: Vec<u8>)
        requires
            old(self).held@.len() + bytes@.len() <= usize::MAX,
        ensures
            r@ == passed(old(self).held@ + bytes@),
            final(self).held@ == held(old(self).held@ + bytes@),
            valid_utf8(r@),
            final(self).held@.len() < 4,
    {
        let mut all: Vec<u8> = Vec::new();
        extend_bytes(&mut all, self.held.as_slice());
        extend_bytes(&mut all, bytes);
        let ghost whole = self.held@ + bytes@;
        assert(all@ == whole);
        let mut out: Vec<u8> = Vec::new();
        let mut from: usize = 0;
        assert(whole.subrange(0, whole.len() as int) =~= whole);
        assert(out@ + passed(whole) =~= passed(whole));
        loop
            invariant
                from <= all@.len(),
                whole == old(self).held@ + bytes@,
                all@ == whole,
                out@ + passed(whole.subrange(from as int, whole.len() as int)) == passed(whole),
                held(whole.subrange(from as int, whole.len() as int)) == held(whole),
            decreases all@.len() - from,
        {
            let ghost rest = whole.subrange(from as int, whole.len() as int);
            let view = slice_subrange(all.as_slice(), from, all.len());
            assert(view@ == rest);
            let n: usize = valid_utf8_prefix_len(view);
            extend_bytes(&mut out, slice_subrange(view, 0, n));
            if view.len() - n < 4 {
                let mut back: Vec<u8> = Vec::new();
                extend_bytes(&mut back, slice_subrange(view, n, view.len()));
                self.held = back;
                proof {
                    sieve_passes_text(whole);
                }
                assert(out@ =~= passed(whole));
                return out;
            }
            assert(rest.subrange(n + 1, rest.len() as int) =~= whole.subrange(
                from + n + 1,
                whole.len() as int,
            ));
            from = from + n + 1;
            assert(out@ + passed(whole.subrange(from as int, whole.len() as int)) =~= passed(whole));
        }
    }
}

/// A buffer takes more text only where that leaves it unfilled, and then behind
/// what it has.
pub proof fn buffers_take_what_fits(g: RingView, bytes: Seq<u8>)
    ensures
        g.text.len() + bytes.len() < 16_368 ==> g.with(bytes).text == g.text + bytes,
        g.text.len() + bytes.len() >= 16_368 ==> g.with(bytes) == g,
        g.with(bytes).status == g.status,
        g.with(bytes).tool_state == g.tool_state,
{
}

/// A byte that no character can start with is passed over where enough follows
/// it, and what follows passes.
pub proof fn stray_bytes_are_passed_over(bad: u8, text: Seq<u8>)
    requires
        0x80 <= bad < 0xC0 || 0xF8 <= bad,
        valid_utf8(text),
        text.len() >= 3,
    ensures
        passed(seq![bad] + text) == text,
        held(seq![bad] + text).len() == 0,
{
    let s = seq![bad] + text;
    let n = s.len() as int;
    assert forall|k: int| 0 < k <= n implies !valid_utf8(#[trigger] s.subrange(0, k)) by {
        let p = s.subrange(0, k);
        assert(p[0] == bad);
        reveal_with_fuel(valid_utf8, 2);
    }
    valid_prefix_is_longest(s, n);
    assert(valid_prefix(s, n) == 0);
    assert(s.subrange(1, n) =~= text);
    whole_text_passes(text);
    assert(s.subrange(0, 0) + text =~= text);
}

} // verus!
