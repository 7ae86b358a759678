//! The streaming client: where it connects, when it retries, what it sends and
//! how it judges the answers. The caller performs the transfers.
use vstd::prelude::*;
use vstd::string::*;
use vstd::utf8::*;

use crate::bytes::{le32, le32_bytes, push_le32, read_le32};
use crate::protocol::{
    build_data_payload, build_frame, frame, helper_view, helpers_from, parse_hello, parse_result,
    signed32, to_bits, to_signed, Hello, FRAME_CODE, FRAME_DATA, FRAME_HELLO, FRAME_RESULT,
};
use crate::text::{dec_bytes, extend_bytes};

verus! {

broadcast use vstd::seq_lib::group_seq_properties;

/// Connection attempts before the client gives up.
pub const MAX_ATTEMPTS: u32 = 5;

/// Pause before the second attempt.
pub const BACKOFF_INITIAL_MS: u64 = 2_000;

/// Longest pause.
pub const BACKOFF_CAP_MS: u64 = 32_000;

/// Port of the service.
pub const DEFAULT_PORT: u16 = 14712;

/// Why a transfer failed.
#[derive(Debug, Clone, Copy, PartialEq, Eq, Structural)]
pub enum TcpError {
    ConnectFailed,
    SendFailed,
    RecvFailed,
    PeerClosed,
}

/// Why a stream ended.
#[derive(Debug, Clone, Copy, PartialEq, Eq, Structural)]
pub enum StreamError {
    Tcp(TcpError),
    Protocol,
    UnexpectedFrame(u8),
    Jit,
}

// ---------------------------------------------------------------------
// Addresses
// ---------------------------------------------------------------------

pub open spec fn is_digit(b: u8) -> bool {
    48 <= b <= 57
}

/// The numbers between the dots, modulo 256. Bytes that are neither digits nor
/// dots are passed over.
pub open spec fn octets(s: Seq<u8>) -> Seq<int>
    decreases s.len(),
{
    if s.len() == 0 {
        seq![0]
    } else {
        let before = octets(s.drop_last());
        let b = s.last();
        if b == 46 {
            before.push(0)
        } else if is_digit(b) {
            before.update(before.len() - 1, (before.last() * 10 + (b - 48)) % 256)
        } else {
            before
        }
    }
}

proof fn lemma_octets(s: Seq<u8>)
    ensures
        octets(s).len() > 0,
        forall|i: int| 0 <= i < octets(s).len() ==> 0 <= #[trigger] octets(s)[i] < 256,
    decreases s.len(),
{
    if s.len() > 0 {
        lemma_octets(s.drop_last());
    }
}

/// A number behind a dot, or at the beginning, reads back.
proof fn lemma_octet(s: Seq<u8>, n: nat)
    requires
        octets(s).last() == 0,
        n < 256,
    ensures
        octets(s + dec_bytes(n)) == octets(s).update(octets(s).len() - 1, n as int),
    decreases n,
{
    let t = s + dec_bytes(n);
    let was = octets(s);
    lemma_octets(s);
    if n < 10 {
        assert(t.drop_last() =~= s);
        assert(t.last() == 48 + n);
    } else {
        lemma_octet(s, n / 10);
        assert(t.drop_last() =~= s + dec_bytes(n / 10));
        assert(t.last() == 48 + n % 10);
        assert(octets(t) =~= was.update(was.len() - 1, n as int));
    }
}

/// An address in dotted decimal.
pub open spec fn dotted(a: u8, b: u8, c: u8, d: u8) -> Seq<u8> {
    dec_bytes(a as nat).push(46) + dec_bytes(b as nat).push(46) + dec_bytes(c as nat).push(46)
        + dec_bytes(d as nat)
}

/// An address in dotted decimal reads back.
pub proof fn addresses_read_back(a: u8, b: u8, c: u8, d: u8)
    ensures
        octets(dotted(a, b, c, d)) == seq![a as int, b as int, c as int, d as int],
{
    let none = Seq::<u8>::empty();
    let one = dec_bytes(a as nat);
    assert(none + one =~= one);
    lemma_octet(none, a as nat);
    assert(octets(one) =~= seq![a as int]);
    let one_dot = one.push(46);
    assert(one_dot.drop_last() =~= one);
    assert(octets(one_dot) =~= seq![a as int, 0]);
    let two = one_dot + dec_bytes(b as nat);
    lemma_octet(one_dot, b as nat);
    assert(octets(two) =~= seq![a as int, b as int]);
    let two_dot = two.push(46);
    assert(two_dot.drop_last() =~= two);
    assert(octets(two_dot) =~= seq![a as int, b as int, 0]);
    let three = two_dot + dec_bytes(c as nat);
    lemma_octet(two_dot, c as nat);
    assert(octets(three) =~= seq![a as int, b as int, c as int]);
    let three_dot = three.push(46);
    assert(three_dot.drop_last() =~= three);
    assert(octets(three_dot) =~= seq![a as int, b as int, c as int, 0]);
    lemma_octet(three_dot, d as nat);
    assert(octets(three_dot + dec_bytes(d as nat)) =~= seq![a as int, b as int, c as int, d as int]);
    assert(dotted(a, b, c, d) =~= three_dot + dec_bytes(d as nat));
}

/// The address in a text: the first four numbers, 0 for missing ones.
pub fn parse_ipv4(s: &str) -> (r: [u8; 4])
    ensures
        forall|i: int|
            0 <= i < 4 ==> r@[i] == (if i < octets(encode_utf8(s@)).len() {
                octets(encode_utf8(s@))[i]
            } else {
                0
            }),
{
    let b = s.as_bytes();
    let mut out: [u8; 4] = [0u8; 4];
    let mut octet: usize = 0;
    let mut acc: u32 = 0;
    let mut i: usize = 0;
    while i < b.len()
        invariant
            i <= b.len(),
            octet <= i,
            acc < 256,
            octets(b@.subrange(0, i as int)).len() == octet + 1,
            octets(b@.subrange(0, i as int))[octet as int] == acc,
            forall|k: int|
                0 <= k < 4 && k < octet ==> out@[k] == octets(b@.subrange(0, i as int))[k],
            forall|k: int| octet <= k < 4 ==> out@[k] == 0,
        decreases b.len() - i,
    {
        let c: u8 = b[i];
        let ghost was = octets(b@.subrange(0, i as int));
        proof {
            assert(b@.subrange(0, i + 1).drop_last() =~= b@.subrange(0, i as int));
            lemma_octets(b@.subrange(0, i as int));
        }
        if c == 46 {
            if octet < 4 {
                out[octet] = acc as u8;
            }
            octet = octet + 1;
            acc = 0;
        } else if 48 <= c && c <= 57 {
            acc = (acc * 10 + (c - 48) as u32) % 256;
        }
        i = i + 1;
    }
    assert(b@.subrange(0, i as int) =~= b@);
    if octet < 4 {
        out[octet] = acc as u8;
    }
    out
}

/// The number that the digits of a text denote, modulo 65536.
pub open spec fn digits_value(s: Seq<u8>) -> int
    decreases s.len(),
{
    if s.len() == 0 {
        0
    } else if is_digit(s.last()) {
        (digits_value(s.drop_last()) * 10 + (s.last() - 48)) % 65536
    } else {
        digits_value(s.drop_last())
    }
}

/// The port in a text.
pub fn parse_u16(s: &str) -> (r: u16)
    ensures
        r == digits_value(encode_utf8(s@)),
{
    let b = s.as_bytes();
    let mut acc: u32 = 0;
    let mut i: usize = 0;
    while i < b.len()
        invariant
            i <= b.len(),
            acc < 65536,
            acc == digits_value(b@.subrange(0, i as int)),
        decreases b.len() - i,
    {
        let c: u8 = b[i];
        proof {
            assert(b@.subrange(0, i + 1).drop_last() =~= b@.subrange(0, i as int));
        }
        if 48 <= c && c <= 57 {
            acc = (acc * 10 + (c - 48) as u32) % 65536;
        }
        i = i + 1;
    }
    assert(b@.subrange(0, i as int) =~= b@);
    acc as u16
}

/// A port in decimal reads back.
pub proof fn ports_read_back(n: nat)
    requires
        n < 65536,
    ensures
        digits_value(dec_bytes(n)) == n,
    decreases n,
{
    let s = dec_bytes(n);
    if n < 10 {
        assert(s.drop_last() =~= Seq::<u8>::empty());
        assert(digits_value(s.drop_last()) == 0);
    } else {
        ports_read_back(n / 10);
        assert(s.drop_last() =~= dec_bytes(n / 10));
    }
}

// ---------------------------------------------------------------------
// Retries
// ---------------------------------------------------------------------

/// What follows a failed attempt.
#[derive(Debug, Clone, Copy, PartialEq, Eq, Structural)]
pub enum RetryStep {
    GiveUp,
    /// Wait, then try again; the next pause is given too.
    Wait { ms: u64, next_ms: u64 },
}

/// The pause after the `n`-th failed attempt.
pub open spec fn pause_after(n: int) -> int
    decreases n,
{
    if n <= 1 {
        BACKOFF_INITIAL_MS as int
    } else if 2 * pause_after(n - 1) > BACKOFF_CAP_MS {
        BACKOFF_CAP_MS as int
    } else {
        2 * pause_after(n - 1)
    }
}

/// What follows the `attempt`-th failed attempt, with the current pause.
pub fn next_retry(attempt: u32, backoff_ms: u64) -> (r: RetryStep)
    requires
        2 * backoff_ms <= u64::MAX,
    ensures
        r == (if attempt >= MAX_ATTEMPTS {
            RetryStep::GiveUp
        } else {
            RetryStep::Wait {
                ms: backoff_ms,
                next_ms: if 2 * backoff_ms > BACKOFF_CAP_MS {
                    BACKOFF_CAP_MS
                } else {
                    (2 * backoff_ms) as u64
                },
            }
        }),
{
    if attempt >= MAX_ATTEMPTS {
        return RetryStep::GiveUp;
    }
    let doubled: u64 = backoff_ms * 2;
    RetryStep::Wait {
        ms: backoff_ms,
        next_ms: if doubled > BACKOFF_CAP_MS {
            BACKOFF_CAP_MS
        } else {
            doubled
        },
    }
}

/// Pauses double from the first on, never exceed the limit, and the attempts
/// run out after the fifth.
pub proof fn backoff_doubles(n: int)
    requires
        n >= 1,
    ensures
        pause_after(1) == 2_000,
        pause_after(2) == 4_000,
        pause_after(3) == 8_000,
        pause_after(4) == 16_000,
        pause_after(5) == 32_000,
        BACKOFF_INITIAL_MS <= pause_after(n) <= BACKOFF_CAP_MS,
        pause_after(n) <= pause_after(n + 1),
    decreases n,
{
    reveal_with_fuel(pause_after, 6);
    if n > 1 {
        backoff_doubles(n - 1);
    }
}

// ---------------------------------------------------------------------
// Transfers
// ---------------------------------------------------------------------

/// What the network stack said to a call.
#[derive(Debug, Clone, Copy, PartialEq, Eq, Structural)]
pub enum TcpEvent {
    /// It would block.
    Again,
    Failed,
    /// A slot, or a number of bytes.
    Value { n: u64 },
}

/// What the caller does next.
#[derive(Debug, Clone, Copy, PartialEq, Eq, Structural)]
pub enum TcpStep {
    /// Give the processor away and repeat the call.
    Yield,
    /// Repeat the call with what is left.
    Continue,
    Done,
    Stop { error: TcpError },
}

/// The slot value that means none.
pub const INVALID_SLOT: u64 = 0xFFFF;

/// Judges the first connection call: it must give a slot at once.
pub fn connect_begun(event: TcpEvent) -> (r: Result<(), TcpError>)
    ensures
        r is Ok <==> (event matches TcpEvent::Value { n } && n != INVALID_SLOT),
        r matches Err(e) ==> e == TcpError::ConnectFailed,
{
    match event {
        TcpEvent::Value { n } => {
            if n == INVALID_SLOT {
                Err(TcpError::ConnectFailed)
            } else {
                Ok(())
            }
        },
        _ => Err(TcpError::ConnectFailed),
    }
}

/// Judges a later connection call: a slot ends the handshake.
pub fn connect_polled(event: TcpEvent) -> (r: TcpStep)
    ensures
        r == (match event {
            TcpEvent::Again => TcpStep::Yield,
            TcpEvent::Failed => TcpStep::Stop { error: TcpError::ConnectFailed },
            TcpEvent::Value { .. } => TcpStep::Done,
        }),
{
    match event {
        TcpEvent::Again => TcpStep::Yield,
        TcpEvent::Failed => TcpStep::Stop { error: TcpError::ConnectFailed },
        TcpEvent::Value { .. } => TcpStep::Done,
    }
}

/// A transfer of `total` bytes, `done` of which are through.
pub struct Transfer {
    pub total: usize,
    pub done: usize,
}

impl Transfer {
    pub open spec fn wf(self) -> bool {
        self.done <= self.total
    }

    pub fn new(total: usize) -> (t: Self)
        ensures
            t.wf(),
            t.total == total,
            t.done == 0,
    {
        Transfer { total, done: 0 }
    }

    /// Counts bytes, at most those that were left.
    fn advance(&mut self, n: u64)
        requires
            old(self).wf(),
        ensures
            final(self).wf(),
            final(self).total == old(self).total,
            final(self).done == (if n < old(self).total - old(self).done {
                old(self).done + n
            } else {
                old(self).total as int
            }),
    {
        let left: usize = self.total - self.done;
        if n < left as u64 {
            self.done = self.done + n as usize;
        } else {
            self.done = self.total;
        }
    }

    /// Judges a send call.
    pub fn sent(&mut self, event: TcpEvent) -> (r: TcpStep)
        requires
            old(self).wf(),
        ensures
            final(self).wf(),
            final(self).total == old(self).total,
            match event {
                TcpEvent::Again => r == TcpStep::Yield && *final(self) == *old(self),
                TcpEvent::Failed => r == (TcpStep::Stop { error: TcpError::SendFailed })
                    && *final(self) == *old(self),
                TcpEvent::Value { n } => final(self).done == (if n < old(self).total - old(
                    self,
                ).done {
                    old(self).done + n
                } else {
                    old(self).total as int
                }) && r == (if final(self).done == old(self).total {
                    TcpStep::Done
                } else {
                    TcpStep::Continue
                }),
            },
    {
        match event {
            TcpEvent::Again => TcpStep::Yield,
            TcpEvent::Failed => TcpStep::Stop { error: TcpError::SendFailed },
            TcpEvent::Value { n } => {
                self.advance(n);
                if self.done == self.total {
                    TcpStep::Done
                } else {
                    TcpStep::Continue
                }
            },
        }
    }

    /// Judges a receive call. No bytes mean that the other side is gone.
    pub fn received(&mut self, event: TcpEvent) -> (r: TcpStep)
        requires
            old(self).wf(),
        ensures
            final(self).wf(),
            final(self).total == old(self).total,
            match event {
                TcpEvent::Again => r == TcpStep::Yield && *final(self) == *old(self),
                TcpEvent::Failed => r == (TcpStep::Stop { error: TcpError::RecvFailed })
                    && *final(self) == *old(self),
                TcpEvent::Value { n } => if n == 0 {
                    r == (TcpStep::Stop { error: TcpError::PeerClosed }) && *final(self) == *old(
                        self,
                    )
                } else {
                    final(self).done == (if n < old(self).total - old(self).done {
                        old(self).done + n
                    } else {
                        old(self).total as int
                    }) && r == (if final(self).done == old(self).total {
                        TcpStep::Done
                    } else {
                        TcpStep::Continue
                    })
                },
            },
    {
        match event {
            TcpEvent::Again => TcpStep::Yield,
            TcpEvent::Failed => TcpStep::Stop { error: TcpError::RecvFailed },
            TcpEvent::Value { n } => {
                if n == 0 {
                    return TcpStep::Stop { error: TcpError::PeerClosed };
                }
                self.advance(n);
                if self.done == self.total {
                    TcpStep::Done
                } else {
                    TcpStep::Continue
                }
            },
        }
    }
}

// ---------------------------------------------------------------------
// Messages
// ---------------------------------------------------------------------

/// A code frame: the code and its tag.
pub fn signed_code_frame(code: &[u8], tag: &[u8]) -> (r: Vec<u8>)
    ensures
        r@ == frame(FRAME_CODE, code@ + tag@),
{
    let mut payload: Vec<u8> = Vec::new();
    extend_bytes(&mut payload, code);
    extend_bytes(&mut payload, tag);
    assert(payload@ =~= code@ + tag@);
    build_frame(FRAME_CODE, payload.as_slice())
}

/// The type and the payload length of a received header.
pub fn frame_header(header: &[u8; 5]) -> (r: (u8, usize))
    ensures
        r.0 == header@[0],
        r.1 == le32(header@, 1),
{
    let h = header.as_slice();
    (h[0], read_le32(h, 1) as usize)
}

/// Reads the first message.
pub fn expect_hello(ty: u8, payload: &[u8]) -> (r: Result<Hello, StreamError>)
    ensures
        if ty != FRAME_HELLO {
            r matches Err(e) && e == StreamError::UnexpectedFrame(ty)
        } else if payload@.len() < 16 {
            r matches Err(e) && e == StreamError::Protocol
        } else {
            match helpers_from(payload@, 16, le32(payload@, 12)) {
                Ok(helpers) => r matches Ok(h) && h.mem_base == crate::bytes::le64(payload@, 0)
                    && h.mem_size == le32(payload@, 8) && helper_view(h.helpers@) == helpers,
                Err(_) => r matches Err(e) && e == StreamError::Protocol,
            }
        },
{
    if ty != FRAME_HELLO {
        return Err(StreamError::UnexpectedFrame(ty));
    }
    match parse_hello(payload) {
        Ok(h) => Ok(h),
        Err(_) => Err(StreamError::Protocol),
    }
}

/// Reads a result.
pub fn expect_result(ty: u8, payload: &[u8]) -> (r: Result<i32, StreamError>)
    ensures
        match r {
            Ok(v) => ty == FRAME_RESULT && payload@.len() == 4 && v == signed32(le32(payload@, 0)),
            Err(e) => if ty != FRAME_RESULT {
                e == StreamError::UnexpectedFrame(ty)
            } else {
                payload@.len() != 4 && e == StreamError::Protocol
            },
        },
{
    if ty != FRAME_RESULT {
        return Err(StreamError::UnexpectedFrame(ty));
    }
    match parse_result(payload) {
        Ok(v) => Ok(v),
        Err(_) => Err(StreamError::Protocol),
    }
}

/// The sample for an uptime: its low 32 bits, signed.
pub fn sample_of(uptime_ms: u64) -> (r: i32)
    ensures
        r == signed32((uptime_ms % 0x1_0000_0000) as int),
{
    to_signed((uptime_ms % 0x1_0000_0000) as u32)
}

/// The data frame of a sample.
pub fn sample_frame(sample: i32) -> (r: Vec<u8>)
    ensures
        exists|bits: u32|
            signed32(bits as int) == sample && r@ == frame(
                FRAME_DATA,
                le32_bytes(0) + #[trigger] le32_bytes(bits),
            ),
{
    let bits: u32 = to_bits(sample);
    let mut value: Vec<u8> = Vec::new();
    push_le32(&mut value, bits);
    assert(value@ =~= le32_bytes(bits));
    let data = build_data_payload(0, value.as_slice());
    build_frame(FRAME_DATA, data.as_slice())
}

/// Whether a result is twice its sample, modulo 2^32.
pub fn result_matches(sample: i32, result: i32) -> (r: bool)
    ensures
        r == ((2 * sample - result) % 0x1_0000_0000 == 0),
{
    let d: i64 = 2 * (sample as i64) - result as i64;
    if d == 0 {
        true
    } else if d == 0x1_0000_0000 {
        true
    } else if d == -0x1_0000_0000 {
        true
    } else {
        assert(-0x2_0000_0000 < d < 0x2_0000_0000);
        false
    }
}

/// The last pause is half a minute and two seconds, and stays that.
pub proof fn backoff_stays(n: int)
    requires
        n >= 5,
    ensures
        pause_after(n) == 32_000,
    decreases n,
{
    backoff_doubles(n);
    if n > 5 {
        backoff_stays(n - 1);
    }
}

/// What is no digit and no dot does not count in an address, and what is no
/// digit does not count in a port.
pub proof fn other_bytes_do_not_count(s: Seq<u8>, b: u8)
    ensures
        !(48 <= b <= 57) && b != 46 ==> octets(s.push(b)) == octets(s),
        !(48 <= b <= 57) ==> digits_value(s.push(b)) == digits_value(s),
{
    assert(s.push(b).drop_last() =~= s);
}

} // verus!
