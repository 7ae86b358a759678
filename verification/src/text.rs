//! Small text primitives shared by the services: decimal rendering, byte
//! comparison and byte search, and the few `String` operations that the
//! contracts elsewhere rely on.
use vstd::prelude::*;
use vstd::string::*;
use vstd::utf8::*;

verus! {

broadcast use vstd::seq_lib::group_seq_properties;

/// `String::push` appends one character to the text.
pub assume_specification[ String::push ](s: &mut String, c: char)
    ensures
        final(s)@ == old(s)@.push(c),
;

/// `String::push_str` appends the characters of a slice to the text.
pub assume_specification[ String::push_str ](s: &mut String, t: &str)
    ensures
        final(s)@ == old(s)@ + t@,
;

/// The error of `core::str::from_utf8`, carried but never looked into.
#[verifier::external_type_specification]
#[verifier::external_body]
pub struct ExUtf8Error(core::str::Utf8Error);

/// `core::str::from_utf8` succeeds exactly on valid UTF-8, and the slice it
/// returns has the given bytes.
pub assume_specification<'a>[ core::str::from_utf8 ](v: &'a [u8]) -> (r: Result<
    &'a str,
    core::str::Utf8Error,
>)
    ensures
        r is Ok <==> valid_utf8(v@),
        r matches Ok(s) ==> s.spec_bytes() == v@,
;

/// The character of a decimal digit.
pub open spec fn digit_char(d: nat) -> char {
    (48 + d) as char
}

/// Decimal digits of `n`, most significant first, without leading zeros.
pub open spec fn dec_chars(n: nat) -> Seq<char>
    decreases n,
{
    if n < 10 {
        seq![digit_char(n)]
    } else {
        dec_chars(n / 10).push(digit_char(n % 10))
    }
}

/// The same digits as ASCII bytes.
pub open spec fn dec_bytes(n: nat) -> Seq<u8>
    decreases n,
{
    if n < 10 {
        seq![(48 + n) as u8]
    } else {
        dec_bytes(n / 10).push((48 + n % 10) as u8)
    }
}

/// The number that a run of digit bytes denotes.
pub open spec fn dec_value(s: Seq<u8>) -> int
    decreases s.len(),
{
    if s.len() == 0 {
        0
    } else {
        dec_value(s.drop_last()) * 10 + (s.last() - 48)
    }
}

/// Reading back a rendered number gives the number.
pub proof fn dec_round_trip(n: nat)
    ensures
        dec_value(dec_bytes(n)) == n,
        dec_bytes(n).len() > 0,
        forall|i: int| 0 <= i < dec_bytes(n).len() ==> 48 <= #[trigger] dec_bytes(n)[i] <= 57,
    decreases n,
{
    if n < 10 {
        let s = seq![(48 + n) as u8];
        assert(s.drop_last() =~= Seq::<u8>::empty());
        assert(dec_value(s.drop_last()) == 0);
    } else {
        dec_round_trip(n / 10);
        let d = (48 + n % 10) as u8;
        assert(dec_bytes(n).drop_last() =~= dec_bytes(n / 10));
    }
}

/// Appends the decimal digits of `v`.
pub fn push_dec(out: &mut String, v: u64)
    ensures
        final(out)@ == old(out)@ + dec_chars(v as nat),
    decreases v,
{
    if v >= 10 {
        push_dec(out, v / 10);
    }
    let d: u8 = (v % 10) as u8;
    out.push((48 + d) as char);
    proof {
        if v < 10 {
            assert(out@ =~= old(out)@ + dec_chars(v as nat));
        } else {
            assert(out@ =~= old(out)@ + dec_chars(v as nat));
        }
    }
}

/// Appends the decimal digits of `v` as ASCII bytes.
pub fn push_dec_bytes(out: &mut Vec<u8>, v: u64)
    ensures
        final(out)@ == old(out)@ + dec_bytes(v as nat),
    decreases v,
{
    if v >= 10 {
        push_dec_bytes(out, v / 10);
    }
    let d: u8 = (v % 10) as u8;
    out.push(48 + d);
    proof {
        assert(out@ =~= old(out)@ + dec_bytes(v as nat));
    }
}

/// Whether `needle` stands in `hay` at offset `at`.
pub open spec fn occurs_at(hay: Seq<u8>, needle: Seq<u8>, at: int) -> bool {
    0 <= at && at + needle.len() <= hay.len() && hay.subrange(at, at + needle.len()) == needle
}

/// Whether `needle` stands in `hay` at offset `at`.
pub fn is_at(hay: &[u8], needle: &[u8], at: usize) -> (r: bool)
    ensures
        r == occurs_at(hay@, needle@, at as int),
{
    if at > hay.len() || needle.len() > hay.len() - at {
        return false;
    }
    let mut i: usize = 0;
    while i < needle.len()
        invariant
            i <= needle.len(),
            at + needle.len() <= hay.len(),
            forall|k: int| 0 <= k < i ==> hay@[at + k] == needle@[k],
        decreases needle.len() - i,
    {
        if hay[at + i] != needle[i] {
            assert(hay@.subrange(at as int, at + needle@.len())[i as int] != needle@[i as int]);
            return false;
        }
        i = i + 1;
    }
    assert(hay@.subrange(at as int, at + needle@.len()) =~= needle@);
    true
}

/// Byte-for-byte comparison.
pub fn bytes_eq(a: &[u8], b: &[u8]) -> (r: bool)
    ensures
        r == (a@ == b@),
{
    if a.len() != b.len() {
        return false;
    }
    let r = is_at(a, b, 0);
    proof {
        assert(a@.subrange(0, a@.len() as int) =~= a@);
    }
    r
}

/// Two texts with the same UTF-8 bytes are the same text.
pub proof fn lemma_encode_injective(a: Seq<char>, b: Seq<char>)
    requires
        encode_utf8(a) == encode_utf8(b),
    ensures
        a == b,
{
    encode_utf8_decode_utf8(a);
    encode_utf8_decode_utf8(b);
}

/// Text comparison.
pub fn str_eq(a: &str, b: &str) -> (r: bool)
    ensures
        r == (a@ == b@),
{
    let r = bytes_eq(a.as_bytes(), b.as_bytes());
    proof {
        if r {
            lemma_encode_injective(a@, b@);
        }
    }
    r
}

/// The first offset at or after `from` where `needle` stands in `hay`.
pub open spec fn first_from(hay: Seq<u8>, needle: Seq<u8>, from: int) -> Option<int>
    decreases hay.len() - from + 1,
{
    if from > hay.len() {
        None
    } else if occurs_at(hay, needle, from) {
        Some(from)
    } else {
        first_from(hay, needle, from + 1)
    }
}

/// Searches forward for `needle` from offset `from`.
pub fn find_from(hay: &[u8], needle: &[u8], from: usize) -> (r: Option<usize>)
    ensures
        match r {
            Some(p) => first_from(hay@, needle@, from as int) == Some(p as int),
            None => first_from(hay@, needle@, from as int) is None,
        },
{
    if from > hay.len() {
        return None;
    }
    let mut i: usize = from;
    while i < hay.len()
        invariant
            from <= i <= hay.len(),
            first_from(hay@, needle@, from as int) == first_from(hay@, needle@, i as int),
        decreases hay.len() - i,
    {
        if is_at(hay, needle, i) {
            return Some(i);
        }
        i = i + 1;
    }
    if is_at(hay, needle, i) {
        Some(i)
    } else {
        assert(first_from(hay@, needle@, i + 1) is None);
        None
    }
}

/// Copies the bytes of a slice to the end of a vector.
pub fn extend_bytes(out: &mut Vec<u8>, s: &[u8])
    ensures
        final(out)@ == old(out)@ + s@,
{
    let mut i: usize = 0;
    while i < s.len()
        invariant
            i <= s.len(),
            out@ == old(out)@ + s@.subrange(0, i as int),
        decreases s.len() - i,
    {
        out.push(s[i]);
        assert(s@.subrange(0, i + 1) =~= s@.subrange(0, i as int).push(s@[i as int]));
        i = i + 1;
    }
    assert(s@.subrange(0, s@.len() as int) =~= s@);
}

/// A mathematical length as a `usize`, capped at the largest one.
pub open spec fn capped(n: int) -> usize {
    if n > usize::MAX {
        usize::MAX
    } else {
        n as usize
    }
}

/// A 64-bit length as a `usize`, capped at the largest one.
pub fn cap_len(n: u64) -> (r: usize)
    ensures
        r == capped(n as int),
{
    if n > usize::MAX as u64 {
        usize::MAX
    } else {
        n as usize
    }
}

/// The text of a byte range, where it is valid UTF-8.
pub fn text_of(s: &[u8], from: usize, to: usize) -> (r: Option<String>)
    requires
        from <= to <= s@.len(),
    ensures
        match r {
            Some(t) => valid_utf8(s@.subrange(from as int, to as int)) && t@ == decode_utf8(
                s@.subrange(from as int, to as int),
            ),
            None => !valid_utf8(s@.subrange(from as int, to as int)),
        },
{
    match core::str::from_utf8(&s[from..to]) {
        Ok(t) => {
            proof {
                encode_utf8_decode_utf8(t@);
            }
            Some(t.to_owned())
        },
        Err(_) => None,
    }
}

/// The character of a hexadecimal digit.
pub open spec fn hex_digit(d: nat) -> char {
    if d < 10 {
        (48 + d) as char
    } else {
        (87 + d) as char
    }
}

/// Hexadecimal digits of `n`, most significant first, without leading zeros.
pub open spec fn hex_chars(n: nat) -> Seq<char>
    decreases n,
{
    if n < 16 {
        seq![hex_digit(n)]
    } else {
        hex_chars(n / 16).push(hex_digit(n % 16))
    }
}

/// Appends the hexadecimal digits of `v`.
pub fn push_hex(out: &mut String, v: u64)
    ensures
        final(out)@ == old(out)@ + hex_chars(v as nat),
    decreases v,
{
    if v >= 16 {
        push_hex(out, v / 16);
    }
    let d: u8 = (v % 16) as u8;
    if d < 10 {
        out.push((48 + d) as char);
    } else {
        out.push((87 + d) as char);
    }
    assert(out@ =~= old(out)@ + hex_chars(v as nat));
}

/// How many decimal digits `n` has.
pub open spec fn dec_len(n: nat) -> nat
    decreases n,
{
    if n < 10 {
        1
    } else {
        dec_len(n / 10) + 1
    }
}

/// Decimal digits of `n`, filled up with zeros to a width.
pub open spec fn padded_dec(n: nat, width: nat) -> Seq<char> {
    Seq::new(
        if dec_len(n) < width {
            (width - dec_len(n)) as nat
        } else {
            0
        },
        |i: int| '0',
    ) + dec_chars(n)
}

/// A number has as many digits as its rendering.
pub proof fn dec_len_is_length(n: nat)
    ensures
        dec_chars(n).len() == dec_len(n),
    decreases n,
{
    if n >= 10 {
        dec_len_is_length(n / 10);
    }
}

/// Appends the decimal digits of `v`, filled up with zeros to a width.
pub fn push_padded_dec(out: &mut String, v: u64, width: usize)
    ensures
        final(out)@ == old(out)@ + padded_dec(v as nat, width as nat),
{
    let mut digits: usize = 1;
    let mut rest: u64 = v;
    proof {
        lemma_dec_len(v as nat);
    }
    while rest >= 10
        invariant
            digits + dec_len(rest as nat) == dec_len(v as nat) + 1,
            dec_len(v as nat) <= 20,
            dec_len(rest as nat) >= 1,
        decreases rest,
    {
        rest = rest / 10;
        digits = digits + 1;
    }
    let ghost before = out@;
    let mut n: usize = digits;
    while n < width
        invariant
            digits <= n,
            n <= width || n == digits,
            out@ == before + Seq::new((n - digits) as nat, |i: int| '0'),
        decreases width - n,
    {
        out.push('0');
        n = n + 1;
        assert(out@ =~= before + Seq::new((n - digits) as nat, |i: int| '0'));
    }
    push_dec(out, v);
    assert(out@ =~= before + padded_dec(v as nat, width as nat));
}

/// A 64-bit number has at most twenty digits.
proof fn lemma_dec_len(n: nat)
    requires
        n <= u64::MAX,
    ensures
        1 <= dec_len(n) <= 20,
{
    reveal_with_fuel(dec_len, 21);
}

/// The bytes of a character in UTF-8.
pub open spec fn char_width(c: char) -> int {
    encode_scalar(c as u32).len() as int
}

/// Where the longest run of whole characters from `i` on ends that fits into
/// `room` bytes.
pub open spec fn clip_end(s: Seq<char>, i: int, room: int) -> int
    decreases s.len() - i,
{
    if i >= s.len() || char_width(s[i]) > room {
        i
    } else {
        clip_end(s, i + 1, room - char_width(s[i]))
    }
}

/// The longest beginning of a text that fits into `room` bytes.
pub open spec fn clip(s: Seq<char>, room: int) -> Seq<char> {
    s.subrange(0, clip_end(s, 0, room))
}

/// A clipped text fits.
pub proof fn clip_fits(s: Seq<char>, room: int)
    requires
        room >= 0,
    ensures
        0 <= clip_end(s, 0, room) <= s.len(),
        encode_utf8(clip(s, room)).len() <= room,
{
    lemma_clip(s, 0, room);
    assert(s.subrange(0, clip_end(s, 0, room)) == clip(s, room));
}

proof fn lemma_clip(s: Seq<char>, i: int, room: int)
    requires
        0 <= i <= s.len(),
        room >= 0,
    ensures
        i <= clip_end(s, i, room) <= s.len(),
        encode_utf8(s.subrange(i, clip_end(s, i, room))).len() <= room,
    decreases s.len() - i,
{
    if i < s.len() && char_width(s[i]) <= room {
        lemma_clip(s, i + 1, room - char_width(s[i]));
        let e = clip_end(s, i, room);
        let t = s.subrange(i, e);
        assert(t.drop_first() =~= s.subrange(i + 1, e));
        assert(t[0] == s[i]);
    } else {
        assert(s.subrange(i, i) =~= Seq::<char>::empty());
    }
}

/// A text that fits is not clipped.
pub proof fn clip_keeps(s: Seq<char>, room: int)
    requires
        encode_utf8(s).len() <= room,
    ensures
        clip(s, room) == s,
{
    assert(s.subrange(0, s.len() as int) =~= s);
    lemma_clip_keeps(s, 0, room);
}

proof fn lemma_clip_keeps(s: Seq<char>, i: int, room: int)
    requires
        0 <= i <= s.len(),
        encode_utf8(s.subrange(i, s.len() as int)).len() <= room,
    ensures
        clip_end(s, i, room) == s.len(),
    decreases s.len() - i,
{
    if i < s.len() {
        let t = s.subrange(i, s.len() as int);
        assert(t.drop_first() =~= s.subrange(i + 1, s.len() as int));
        assert(t[0] == s[i]);
        lemma_clip_keeps(s, i + 1, room - char_width(s[i]));
    }
}

fn width(c: char) -> (r: usize)
    ensures
        r == char_width(c),
        1 <= r <= 4,
{
    broadcast use vstd::utf8::char_u32_cast;

    let n: u32 = c as u32;
    if n <= 0x7F {
        1
    } else if n <= 0x7FF {
        2
    } else if n <= 0xFFFF {
        3
    } else {
        4
    }
}

/// The longest beginning of a text that fits into `room` bytes.
pub fn clipped(s: &str, room: usize) -> (r: String)
    ensures
        r@ == clip(s@, room as int),
{
    let v = crate::chars::to_chars(s);
    let mut left: usize = room;
    let mut i: usize = 0;
    while i < v.len() && width(v[i]) <= left
        invariant
            i <= v.len(),
            v@ == s@,
            clip_end(s@, 0, room as int) == clip_end(s@, i as int, left as int),
        decreases v.len() - i,
    {
        left = left - width(v[i]);
        i = i + 1;
    }
    crate::chars::chars_to_string(v.as_slice(), 0, i)
}

/// How many bytes a text has.
pub fn byte_len(s: &str) -> (r: usize)
    ensures
        r == encode_utf8(s@).len(),
{
    s.as_bytes().len()
}

/// Whether a text is empty.
pub fn is_blank(s: &str) -> (r: bool)
    ensures
        r == (s@.len() == 0),
{
    let n: usize = s.as_bytes().len();
    proof {
        encode_utf8_decode_utf8(s@);
        if s@.len() == 0 {
            assert(encode_utf8(s@).len() == 0);
        } else {
            encode_utf8_first_scalar(s@);
        }
    }
    n == 0
}

// ---------------------------------------------------------------------
// What rendering and clipping mean
// ---------------------------------------------------------------------

/// The number that a run of digits denotes: nothing is 0, and one more digit
/// makes ten of what was there and adds itself.
pub proof fn digits_denote_numbers(s: Seq<u8>, d: u8)
    ensures
        dec_value(Seq::empty()) == 0,
        dec_value(s.push(d)) == 10 * dec_value(s) + (d - 48),
{
    assert(s.push(d).drop_last() =~= s);
}

/// A rendered number has no leading zero, unless it is zero, and its characters
/// are its bytes.
pub proof fn rendering_is_short(n: nat)
    ensures
        n > 0 ==> dec_bytes(n)[0] != 48,
        n == 0 ==> dec_bytes(n) == seq![48u8],
        dec_chars(n).len() == dec_bytes(n).len(),
        forall|i: int|
            0 <= i < dec_bytes(n).len() ==> (#[trigger] dec_chars(n)[i]) as int == dec_bytes(n)[i],
        dec_chars(n).len() > 0,
    decreases n,
{
    if n >= 10 {
        rendering_is_short(n / 10);
        let m = n / 10;
        assert forall|i: int| 0 <= i < dec_bytes(n).len() implies (#[trigger] dec_chars(n)[i]) as int
            == dec_bytes(n)[i] by {
            if i < dec_bytes(m).len() {
                assert(dec_chars(n)[i] == dec_chars(m)[i]);
            }
        }
    } else {
        assert(n == 0 ==> dec_bytes(n) =~= seq![48u8]);
    }
}

/// A number filled up to a width: zeros and then its digits, as wide as asked
/// for, and wider only where the digits need it.
pub proof fn padding_is_zeros(n: nat, width: nat)
    ensures
        padded_dec(n, width).len() == if dec_chars(n).len() < width {
            width
        } else {
            dec_chars(n).len()
        },
        dec_chars(n).is_suffix_of(padded_dec(n, width)),
        forall|i: int|
            0 <= i < padded_dec(n, width).len() - dec_chars(n).len() ==> #[trigger] padded_dec(
                n,
                width,
            )[i] == '0',
{
    dec_len_is_length(n);
    let p = padded_dec(n, width);
    assert(p.subrange(p.len() - dec_chars(n).len(), p.len() as int) =~= dec_chars(n));
}

/// The value of a hexadecimal digit.
pub open spec fn hex_value(c: char) -> int {
    if '0' <= c <= '9' {
        c as int - 48
    } else {
        c as int - 87
    }
}

/// The number that hexadecimal digits denote.
pub open spec fn hex_number(s: Seq<char>) -> int
    decreases s.len(),
{
    if s.len() == 0 {
        0
    } else {
        16 * hex_number(s.drop_last()) + hex_value(s.last())
    }
}

/// A number in hexadecimal reads back, and has only the digits from 0 to 9 and
/// from a to f.
pub proof fn hex_reads_back(n: nat)
    ensures
        hex_number(hex_chars(n)) == n,
        forall|i: int|
            0 <= i < hex_chars(n).len() ==> '0' <= #[trigger] hex_chars(n)[i] <= '9' || 'a'
                <= hex_chars(n)[i] <= 'f',
    decreases n,
{
    let s = hex_chars(n);
    if n < 16 {
        assert(s.drop_last() =~= Seq::<char>::empty());
        assert(hex_number(s.drop_last()) == 0);
    } else {
        hex_reads_back(n / 16);
        assert(s.drop_last() =~= hex_chars(n / 16));
        assert forall|i: int| 0 <= i < s.len() implies '0' <= #[trigger] s[i] <= '9' || 'a' <= s[i]
            <= 'f' by {
            if i < s.len() - 1 {
                assert(s[i] == hex_chars(n / 16)[i]);
            }
        }
    }
}

/// The first place of some bytes in others.
pub proof fn first_place_is_first(hay: Seq<u8>, needle: Seq<u8>, from: int)
    requires
        0 <= from,
    ensures
        match first_from(hay, needle, from) {
            Some(k) => {
                &&& from <= k
                &&& k + needle.len() <= hay.len()
                &&& hay.subrange(k, k + needle.len()) == needle
                &&& forall|j: int|
                    from <= j < k && j + needle.len() <= hay.len() ==> #[trigger] hay.subrange(
                        j,
                        j + needle.len(),
                    ) != needle
            },
            None => forall|j: int|
                from <= j && j + needle.len() <= hay.len() ==> #[trigger] hay.subrange(
                    j,
                    j + needle.len(),
                ) != needle,
        },
    decreases hay.len() - from + 1,
{
    if from <= hay.len() && !occurs_at(hay, needle, from) {
        first_place_is_first(hay, needle, from + 1);
    }
}

/// A clipped text is the longest beginning that fits: whole characters, no more
/// bytes than there is room for, and with one more character it would be too
/// long.
pub proof fn clipping_is_longest(s: Seq<char>, room: int)
    requires
        room >= 0,
    ensures
        clip(s, room).is_prefix_of(s),
        encode_utf8(clip(s, room)).len() <= room,
        clip(s, room).len() < s.len() ==> encode_utf8(s.subrange(0, clip(s, room).len() as int + 1)).len()
            > room,
{
    clip_fits(s, room);
    let k = clip(s, room).len() as int;
    assert(clip(s, room) =~= s.subrange(0, k));
    if k < s.len() {
        let t = s.subrange(0, k + 1);
        if encode_utf8(t).len() <= room {
            lemma_clip_goes_on(s, 0, k + 1, room);
        }
    }
}

proof fn lemma_clip_goes_on(s: Seq<char>, i: int, to: int, room: int)
    requires
        0 <= i <= to <= s.len(),
        encode_utf8(s.subrange(i, to)).len() <= room,
    ensures
        clip_end(s, i, room) >= to,
    decreases to - i,
{
    if i < to {
        let t = s.subrange(i, to);
        assert(t.drop_first() =~= s.subrange(i + 1, to));
        assert(encode_utf8(t).len() == encode_scalar(t[0] as u32).len() + encode_utf8(
            t.drop_first(),
        ).len());
        lemma_clip_goes_on(s, i + 1, to, room - char_width(s[i]));
    } else {
        lemma_clip_not_back(s, i, room);
    }
}

proof fn lemma_clip_not_back(s: Seq<char>, i: int, room: int)
    ensures
        clip_end(s, i, room) >= i,
    decreases s.len() - i,
{
    if i < s.len() && char_width(s[i]) <= room {
        lemma_clip_not_back(s, i + 1, room - char_width(s[i]));
    }
}

} // verus!
