//! Wire format of the streaming service: a type byte, a little-endian length
//! and the payload.
use vstd::prelude::*;
use vstd::string::*;
use vstd::utf8::*;

use crate::bytes::{
    le32, le32_bytes, le32_round_trip, le64, le64_bytes, le64_round_trip, push_le32, read_le32,
    read_le64,
};
use crate::text::{extend_bytes, str_eq, text_of};

verus! {

broadcast use vstd::seq_lib::group_seq_properties;

pub const FRAME_HELLO: u8 = 0x01;

pub const FRAME_CODE: u8 = 0x02;

pub const FRAME_DATA: u8 = 0x03;

pub const FRAME_EXEC: u8 = 0x04;

pub const FRAME_RESULT: u8 = 0x05;

pub const FRAME_ERROR: u8 = 0x06;

pub const FRAME_BYE: u8 = 0x07;

/// Bytes of the type and the length.
pub const FRAME_HEADER_LEN: usize = 5;

/// Why a payload was refused.
#[derive(Debug, Clone, Copy, PartialEq, Eq, Structural)]
pub enum ProtoError {
    Truncated,
    BadLength,
    InvalidUtf8,
}

/// A frame. The length field holds the low 32 bits of the length.
pub open spec fn frame(ty: u8, payload: Seq<u8>) -> Seq<u8> {
    seq![ty] + le32_bytes((payload.len() % 0x1_0000_0000) as u32) + payload
}

/// A frame with its header.
pub fn build_frame(ty: u8, payload: &[u8]) -> (r: Vec<u8>)
    ensures
        r@ == frame(ty, payload@),
{
    let mut out: Vec<u8> = Vec::new();
    out.push(ty);
    push_le32(&mut out, (payload.len() as u64 % 0x1_0000_0000) as u32);
    extend_bytes(&mut out, payload);
    assert(out@ =~= frame(ty, payload@));
    out
}

/// The type and the payload length at the front of a buffer.
pub fn peek_header(buf: &[u8]) -> (r: Option<(u8, usize)>)
    ensures
        match r {
            Some((ty, len)) => buf@.len() >= FRAME_HEADER_LEN && ty == buf@[0] && len == le32(
                buf@,
                1,
            ),
            None => buf@.len() < FRAME_HEADER_LEN,
        },
{
    if buf.len() < FRAME_HEADER_LEN {
        return None;
    }
    Some((buf[0], read_le32(buf, 1) as usize))
}

/// Whether a buffer begins with a whole frame.
pub open spec fn holds_frame(buf: Seq<u8>) -> bool {
    buf.len() >= FRAME_HEADER_LEN && buf.len() >= FRAME_HEADER_LEN + le32(buf, 1)
}

/// The first frame of a buffer: its type, its payload and its size. `None`
/// where it is incomplete.
pub fn take_frame(buf: &[u8]) -> (r: Option<(u8, &[u8], usize)>)
    ensures
        match r {
            Some((ty, payload, total)) => {
                &&& holds_frame(buf@)
                &&& ty == buf@[0]
                &&& total == FRAME_HEADER_LEN + le32(buf@, 1)
                &&& payload@ == buf@.subrange(FRAME_HEADER_LEN as int, total as int)
            },
            None => !holds_frame(buf@),
        },
        forall|ty: u8, payload: Seq<u8>, rest: Seq<u8>|
            payload.len() < 0x1_0000_0000 && buf@ == #[trigger] (frame(ty, payload) + rest) ==> (
            r matches Some((t, p, total)) && t == ty && p@ == payload && total == 5
                + payload.len()),
{
    proof {
        assert forall|ty: u8, payload: Seq<u8>, rest: Seq<u8>|
            payload.len() < 0x1_0000_0000 && buf@ == #[trigger] (frame(ty, payload)
                + rest) implies holds_frame(buf@) && buf@[0] == ty && le32(buf@, 1) == payload.len()
            && buf@.subrange(5, 5 + le32(buf@, 1)) == payload by {
            frames_read_back(ty, payload, rest);
        }
    }
    match peek_header(buf) {
        Some((ty, len)) => {
            if buf.len() - FRAME_HEADER_LEN < len {
                return None;
            }
            let total: usize = FRAME_HEADER_LEN + len;
            Some((ty, &buf[FRAME_HEADER_LEN..total], total))
        },
        None => None,
    }
}

/// What was framed is what is taken, whatever follows it.
pub proof fn frames_read_back(ty: u8, payload: Seq<u8>, rest: Seq<u8>)
    requires
        payload.len() < 0x1_0000_0000,
    ensures
        ({
            let buf = frame(ty, payload) + rest;
            &&& holds_frame(buf)
            &&& buf[0] == ty
            &&& le32(buf, 1) == payload.len()
            &&& buf.subrange(5, 5 + le32(buf, 1)) == payload
        }),
{
    let buf = frame(ty, payload) + rest;
    let n = payload.len() as u32;
    assert(buf.subrange(1, 5) =~= le32_bytes(n));
    le32_round_trip(buf, 1, n);
    assert(buf.subrange(5, 5 + payload.len() as int) =~= payload);
}

/// No beginning of a frame is taken for a whole one.
pub proof fn partial_frames_wait(ty: u8, payload: Seq<u8>, k: int)
    requires
        payload.len() < 0x1_0000_0000,
        0 <= k < frame(ty, payload).len(),
    ensures
        !holds_frame(frame(ty, payload).subrange(0, k)),
{
    let whole = frame(ty, payload);
    let part = whole.subrange(0, k);
    if k >= 5 {
        let n = payload.len() as u32;
        assert(part.subrange(1, 5) =~= le32_bytes(n));
        le32_round_trip(part, 1, n);
    }
}

// ---------------------------------------------------------------------
// Hello
// ---------------------------------------------------------------------

/// A function that the remote side offers.
#[derive(Debug, Clone)]
pub struct Helper {
    pub name: String,
    pub addr: u64,
}

/// What the remote side says first: its memory and its functions.
#[derive(Debug, Clone)]
pub struct Hello {
    pub mem_base: u64,
    pub mem_size: u32,
    pub helpers: Vec<Helper>,
}

/// The names and addresses of the helpers.
pub open spec fn helper_view(s: Seq<Helper>) -> Seq<(Seq<char>, u64)> {
    Seq::new(s.len(), |i: int| (s[i].name@, s[i].addr))
}

/// `n` helpers from offset `p` on: a length byte, a name, an address.
pub open spec fn helpers_from(buf: Seq<u8>, p: int, n: int) -> Result<
    Seq<(Seq<char>, u64)>,
    ProtoError,
>
    decreases n,
{
    if n <= 0 {
        Ok(Seq::empty())
    } else if p >= buf.len() {
        Err(ProtoError::Truncated)
    } else {
        let q = p + 1 + buf[p];
        if q > buf.len() {
            Err(ProtoError::Truncated)
        } else if !valid_utf8(buf.subrange(p + 1, q)) {
            Err(ProtoError::InvalidUtf8)
        } else if q + 8 > buf.len() {
            Err(ProtoError::Truncated)
        } else {
            match helpers_from(buf, q + 8, n - 1) {
                Ok(rest) => Ok(
                    seq![(decode_utf8(buf.subrange(p + 1, q)), le64(buf, q) as u64)] + rest,
                ),
                Err(e) => Err(e),
            }
        }
    }
}

/// Reads the first message of the remote side.
pub fn parse_hello(buf: &[u8]) -> (r: Result<Hello, ProtoError>)
    ensures
        if buf@.len() < 16 {
            r matches Err(e) && e == ProtoError::Truncated
        } else {
            match helpers_from(buf@, 16, le32(buf@, 12)) {
                Ok(helpers) => r matches Ok(h) && h.mem_base == le64(buf@, 0) && h.mem_size == le32(
                    buf@,
                    8,
                ) && helper_view(h.helpers@) == helpers,
                Err(e) => r matches Err(f) && f == e,
            }
        },
{
    if buf.len() < 16 {
        return Err(ProtoError::Truncated);
    }
    let mem_base: u64 = read_le64(buf, 0);
    let mem_size: u32 = read_le32(buf, 8);
    let n: u32 = read_le32(buf, 12);
    let mut p: usize = 16;
    let mut helpers: Vec<Helper> = Vec::new();
    let mut i: u32 = 0;
    let ghost all = helpers_from(buf@, 16, n as int);
    assert(helper_view(helpers@) =~= Seq::<(Seq<char>, u64)>::empty());
    proof {
        match all {
            Ok(rest) => {
                assert(helper_view(helpers@) + rest =~= rest);
            },
            Err(_) => {},
        }
    }
    while i < n
        invariant
            i <= n,
            p <= buf.len(),
            n == le32(buf@, 12),
            buf@.len() >= 16,
            all == helpers_from(buf@, 16, n as int),
            match helpers_from(buf@, p as int, n - i) {
                Ok(rest) => all matches Ok(a) && a == helper_view(helpers@) + rest,
                Err(e) => all matches Err(f) && f == e,
            },
        decreases n - i,
    {
        if p >= buf.len() {
            return Err(ProtoError::Truncated);
        }
        let name_len: usize = buf[p] as usize;
        p = p + 1;
        if name_len > buf.len() - p {
            return Err(ProtoError::Truncated);
        }
        let name = match text_of(buf, p, p + name_len) {
            Some(s) => s,
            None => {
                return Err(ProtoError::InvalidUtf8);
            },
        };
        p = p + name_len;
        if buf.len() - p < 8 {
            return Err(ProtoError::Truncated);
        }
        let addr: u64 = read_le64(buf, p);
        p = p + 8;
        let ghost before = helper_view(helpers@);
        let ghost item = (name@, addr);
        helpers.push(Helper { name, addr });
        i = i + 1;
        proof {
            assert(helper_view(helpers@) =~= before.push(item));
            match helpers_from(buf@, p as int, n - i) {
                Ok(rest) => {
                    assert(before + (seq![item] + rest) =~= helper_view(helpers@) + rest);
                },
                Err(_) => {},
            }
        }
    }
    assert(helper_view(helpers@) + Seq::<(Seq<char>, u64)>::empty() =~= helper_view(helpers@));
    Ok(Hello { mem_base, mem_size, helpers })
}

/// Helpers as they are sent.
pub open spec fn helpers_bytes(hs: Seq<(Seq<char>, u64)>) -> Seq<u8>
    decreases hs.len(),
{
    if hs.len() == 0 {
        Seq::empty()
    } else {
        seq![encode_utf8(hs[0].0).len() as u8] + encode_utf8(hs[0].0) + le64_bytes(hs[0].1)
            + helpers_bytes(hs.subrange(1, hs.len() as int))
    }
}

/// A first message as it is sent.
pub open spec fn hello_bytes(mem_base: u64, mem_size: u32, hs: Seq<(Seq<char>, u64)>) -> Seq<u8> {
    le64_bytes(mem_base) + le32_bytes(mem_size) + le32_bytes(hs.len() as u32) + helpers_bytes(hs)
}

proof fn lemma_helpers_read_back(
    buf: Seq<u8>,
    p: int,
    hs: Seq<(Seq<char>, u64)>,
    rest: Seq<u8>,
)
    requires
        0 <= p <= buf.len(),
        buf.subrange(p, buf.len() as int) == helpers_bytes(hs) + rest,
        forall|i: int| 0 <= i < hs.len() ==> encode_utf8((#[trigger] hs[i]).0).len() < 256,
    ensures
        helpers_from(buf, p, hs.len() as int) == Ok::<Seq<(Seq<char>, u64)>, ProtoError>(hs),
    decreases hs.len(),
{
    if hs.len() == 0 {
        assert(hs =~= Seq::<(Seq<char>, u64)>::empty());
    } else {
        let name = encode_utf8(hs[0].0);
        let others = hs.subrange(1, hs.len() as int);
        let w = buf.subrange(p, buf.len() as int);
        let l = name.len() as int;
        assert(encode_utf8(hs[0].0).len() < 256);
        assert(w =~= seq![l as u8] + name + le64_bytes(hs[0].1) + (helpers_bytes(others) + rest));
        assert(buf[p] == w[0]);
        let q = p + 1 + l;
        assert(buf.subrange(p + 1, q) =~= w.subrange(1, 1 + l));
        assert(w.subrange(1, 1 + l) =~= name);
        assert(buf.subrange(q, q + 8) =~= w.subrange(1 + l, 9 + l));
        assert(w.subrange(1 + l, 9 + l) =~= le64_bytes(hs[0].1));
        le64_round_trip(buf, q, hs[0].1);
        encode_utf8_valid_utf8(hs[0].0);
        encode_utf8_decode_utf8(hs[0].0);
        assert(buf.subrange(q + 8, buf.len() as int) =~= w.subrange(9 + l, w.len() as int));
        assert(w.subrange(9 + l, w.len() as int) =~= helpers_bytes(others) + rest);
        assert forall|i: int| 0 <= i < others.len() implies encode_utf8(
            (#[trigger] others[i]).0,
        ).len() < 256 by {
            assert(others[i] == hs[i + 1]);
        }
        lemma_helpers_read_back(buf, q + 8, others, rest);
        assert(seq![(hs[0].0, hs[0].1)] + others =~= hs);
    }
}

/// Helpers that are cut off are truncated.
proof fn lemma_helpers_cut(buf: Seq<u8>, p: int, hs: Seq<(Seq<char>, u64)>, k: int)
    requires
        0 <= p <= buf.len(),
        0 <= k < helpers_bytes(hs).len(),
        buf.subrange(p, buf.len() as int) == helpers_bytes(hs).subrange(0, k),
        forall|i: int| 0 <= i < hs.len() ==> encode_utf8((#[trigger] hs[i]).0).len() < 256,
    ensures
        helpers_from(buf, p, hs.len() as int) == Err::<Seq<(Seq<char>, u64)>, ProtoError>(
            ProtoError::Truncated,
        ),
    decreases hs.len(),
{
    let name = encode_utf8(hs[0].0);
    let others = hs.subrange(1, hs.len() as int);
    let all = helpers_bytes(hs);
    let w = buf.subrange(p, buf.len() as int);
    let l = name.len() as int;
    assert(encode_utf8(hs[0].0).len() < 256);
    assert(all =~= seq![l as u8] + name + le64_bytes(hs[0].1) + helpers_bytes(others));
    assert(w.len() == buf.len() - p);
    if k > 0 {
        assert(buf[p] == w[0]);
        assert(w[0] == all[0]);
        let q = p + 1 + l;
        if k >= 1 + l {
            assert(buf.subrange(p + 1, q) =~= w.subrange(1, 1 + l));
            assert(w.subrange(1, 1 + l) =~= all.subrange(1, 1 + l));
            assert(all.subrange(1, 1 + l) =~= name);
            encode_utf8_valid_utf8(hs[0].0);
            if k >= 9 + l {
                assert(buf.subrange(q + 8, buf.len() as int) =~= w.subrange(9 + l, k));
                assert(w.subrange(9 + l, k) =~= helpers_bytes(others).subrange(0, k - 9 - l));
                assert forall|i: int| 0 <= i < others.len() implies encode_utf8(
                    (#[trigger] others[i]).0,
                ).len() < 256 by {
                    assert(others[i] == hs[i + 1]);
                }
                lemma_helpers_cut(buf, q + 8, others, k - 9 - l);
            }
        }
    }
}

/// A first message reads back as it was sent, where the names fit into their
/// length byte, whatever follows it.
pub proof fn hello_reads_back(
    mem_base: u64,
    mem_size: u32,
    hs: Seq<(Seq<char>, u64)>,
    rest: Seq<u8>,
)
    requires
        hs.len() < 0x1_0000_0000,
        forall|i: int| 0 <= i < hs.len() ==> encode_utf8((#[trigger] hs[i]).0).len() < 256,
    ensures
        ({
            let buf = hello_bytes(mem_base, mem_size, hs) + rest;
            &&& buf.len() >= 16
            &&& le64(buf, 0) == mem_base
            &&& le32(buf, 8) == mem_size
            &&& helpers_from(buf, 16, le32(buf, 12)) == Ok::<Seq<(Seq<char>, u64)>, ProtoError>(hs)
        }),
{
    let buf = hello_bytes(mem_base, mem_size, hs) + rest;
    let n = hs.len() as u32;
    assert(buf.subrange(0, 8) =~= le64_bytes(mem_base));
    assert(buf.subrange(8, 12) =~= le32_bytes(mem_size));
    assert(buf.subrange(12, 16) =~= le32_bytes(n));
    le64_round_trip(buf, 0, mem_base);
    le32_round_trip(buf, 8, mem_size);
    le32_round_trip(buf, 12, n);
    assert(buf.subrange(16, buf.len() as int) =~= helpers_bytes(hs) + rest);
    lemma_helpers_read_back(buf, 16, hs, rest);
}

/// A first message that is cut off anywhere is refused as truncated.
pub proof fn partial_hello_is_truncated(
    mem_base: u64,
    mem_size: u32,
    hs: Seq<(Seq<char>, u64)>,
    k: int,
)
    requires
        hs.len() < 0x1_0000_0000,
        forall|i: int| 0 <= i < hs.len() ==> encode_utf8((#[trigger] hs[i]).0).len() < 256,
        0 <= k < hello_bytes(mem_base, mem_size, hs).len(),
    ensures
        ({
            let buf = hello_bytes(mem_base, mem_size, hs).subrange(0, k);
            buf.len() < 16 || helpers_from(buf, 16, le32(buf, 12)) == Err::<
                Seq<(Seq<char>, u64)>,
                ProtoError,
            >(ProtoError::Truncated)
        }),
{
    let all = hello_bytes(mem_base, mem_size, hs);
    let buf = all.subrange(0, k);
    if k >= 16 {
        let n = hs.len() as u32;
        assert(buf.subrange(12, 16) =~= le32_bytes(n));
        le32_round_trip(buf, 12, n);
        assert(buf.subrange(16, k) =~= helpers_bytes(hs).subrange(0, k - 16));
        lemma_helpers_cut(buf, 16, hs, k - 16);
    }
}

/// The first helper at or behind `i` with that name.
pub open spec fn helper_at(s: Seq<Helper>, name: Seq<char>, i: int) -> Option<int>
    decreases s.len() - i,
{
    if i >= s.len() {
        None
    } else if s[i].name@ == name {
        Some(i)
    } else {
        helper_at(s, name, i + 1)
    }
}

impl Hello {
    /// The address of a helper.
    pub fn helper(&self, name: &str) -> (r: Option<u64>)
        ensures
            r == (match helper_at(self.helpers@, name@, 0) {
                Some(i) => Some(self.helpers@[i].addr),
                None => None,
            }),
    {
        let mut i: usize = 0;
        while i < self.helpers.len()
            invariant
                i <= self.helpers.len(),
                helper_at(self.helpers@, name@, 0) == helper_at(self.helpers@, name@, i as int),
            decreases self.helpers.len() - i,
        {
            if str_eq(self.helpers[i].name.as_str(), name) {
                return Some(self.helpers[i].addr);
            }
            i = i + 1;
        }
        None
    }
}

// ---------------------------------------------------------------------
// Data and results
// ---------------------------------------------------------------------

/// The payload that writes bytes at an offset of the remote memory.
pub fn build_data_payload(offset: u32, bytes: &[u8]) -> (r: Vec<u8>)
    ensures
        r@ == le32_bytes(offset) + bytes@,
{
    let mut out: Vec<u8> = Vec::new();
    push_le32(&mut out, offset);
    extend_bytes(&mut out, bytes);
    assert(out@ =~= le32_bytes(offset) + bytes@);
    out
}

/// The signed number that 32 bits stand for.
pub open spec fn signed32(v: int) -> int {
    if v < 0x8000_0000 {
        v
    } else {
        v - 0x1_0000_0000
    }
}

/// Reads a signed number from its bits.
pub fn to_signed(v: u32) -> (r: i32)
    ensures
        r == signed32(v as int),
{
    if v < 0x8000_0000 {
        v as i32
    } else {
        (v as i64 - 0x1_0000_0000) as i32
    }
}

/// The bits of a signed number.
pub fn to_bits(v: i32) -> (r: u32)
    ensures
        signed32(r as int) == v,
{
    if v >= 0 {
        v as u32
    } else {
        (v as i64 + 0x1_0000_0000) as u32
    }
}

/// Reads the result of an execution.
pub fn parse_result(buf: &[u8]) -> (r: Result<i32, ProtoError>)
    ensures
        match r {
            Ok(v) => buf@.len() == 4 && v == signed32(le32(buf@, 0)),
            Err(e) => buf@.len() != 4 && e == ProtoError::BadLength,
        },
{
    if buf.len() != 4 {
        return Err(ProtoError::BadLength);
    }
    Ok(to_signed(read_le32(buf, 0)))
}

/// A frame is its type, the length of its payload in four bytes, the lowest
/// first, and the payload.
pub proof fn frames_are_laid_out(ty: u8, payload: Seq<u8>)
    requires
        payload.len() < 0x1_0000_0000,
    ensures
        ({
            let f = frame(ty, payload);
            &&& f.len() == 5 + payload.len()
            &&& f[0] == ty
            &&& f[1] + 256 * f[2] + 65_536 * f[3] + 16_777_216 * f[4] == payload.len()
            &&& f.subrange(5, f.len() as int) == payload
        }),
{
    let f = frame(ty, payload);
    assert(f.subrange(5, f.len() as int) =~= payload);
    assert(f.subrange(1, 5) =~= le32_bytes(payload.len() as u32));
    le32_round_trip(f, 1, payload.len() as u32);
}

/// The kinds of frames by their numbers.
pub proof fn frames_have_numbers()
    ensures
        FRAME_HELLO == 1,
        FRAME_CODE == 2,
        FRAME_DATA == 3,
        FRAME_EXEC == 4,
        FRAME_RESULT == 5,
        FRAME_ERROR == 6,
        FRAME_BYE == 7,
{
}

/// Bits from 2^31 on stand for the negative numbers, counted back from 2^32.
pub proof fn signed_numbers(v: u32)
    ensures
        v < 0x8000_0000 ==> signed32(v as int) == v,
        v >= 0x8000_0000 ==> signed32(v as int) == v - 4_294_967_296,
        -0x8000_0000 <= signed32(v as int) < 0x8000_0000,
{
}

/// A helper is found at the first place that has its name.
pub proof fn helpers_are_found(s: Seq<Helper>, name: Seq<char>, i: int)
    requires
        0 <= i,
    ensures
        match helper_at(s, name, i) {
            Some(k) => i <= k < s.len() && s[k].name@ == name && forall|j: int|
                i <= j < k ==> (#[trigger] s[j]).name@ != name,
            None => forall|j: int| i <= j < s.len() ==> (#[trigger] s[j]).name@ != name,
        },
    decreases s.len() - i,
{
    if i < s.len() && s[i].name@ != name {
        helpers_are_found(s, name, i + 1);
    }
}

/// A name that is no UTF-8 is told apart from one that is cut off.
pub proof fn bad_names_are_told(buf: Seq<u8>, p: int, n: int)
    requires
        0 <= p < buf.len(),
        n > 0,
        p + 1 + buf[p] <= buf.len(),
        !valid_utf8(buf.subrange(p + 1, p + 1 + buf[p])),
    ensures
        helpers_from(buf, p, n) == Err::<Seq<(Seq<char>, u64)>, ProtoError>(
            ProtoError::InvalidUtf8,
        ),
{
}

} // verus!
