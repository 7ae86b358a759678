//! The text of the demo counter.
use vstd::prelude::*;
use vstd::string::*;
use vstd::utf8::*;

use crate::text::{dec_bytes, push_dec_bytes};

verus! {

broadcast use vstd::seq_lib::group_seq_properties;

/// What of the text fits into `room` bytes: the label from its beginning, and
/// of the digits the last ones.
pub open spec fn counter_text(counter: u64, room: int) -> Seq<u8> {
    let label = encode_utf8("tick="@);
    let digits = dec_bytes(counter as nat);
    if room <= label.len() {
        label.subrange(0, room)
    } else if room - label.len() < digits.len() {
        label + digits.subrange(digits.len() - (room - label.len()), digits.len() as int)
    } else {
        label + digits
    }
}

/// Writes a counter at the beginning of a buffer and returns how many bytes
/// were written. The rest of the buffer stays as it is.
pub fn format_counter(buf: &mut [u8], counter: u64) -> (r: usize)
    ensures
        r == counter_text(counter, old(buf)@.len() as int).len(),
        r <= old(buf)@.len(),
        final(buf)@.len() == old(buf)@.len(),
        final(buf)@.subrange(0, r as int) == counter_text(counter, old(buf)@.len() as int),
        final(buf)@.subrange(r as int, old(buf)@.len() as int) == old(buf)@.subrange(
            r as int,
            old(buf)@.len() as int,
        ),
{
    let label = "tick=".as_bytes();
    let mut digits: Vec<u8> = Vec::new();
    push_dec_bytes(&mut digits, counter);
    assert(digits@ =~= dec_bytes(counter as nat));
    let ghost text = counter_text(counter, buf@.len() as int);
    let ghost before = buf@;
    let n: usize = buf.len();
    let mut i: usize = 0;
    while i < label.len() && i < n
        invariant
            n == buf@.len(),
            buf@.len() == before.len(),
            i <= label@.len(),
            i <= n,
            forall|k: int| 0 <= k < i ==> buf@[k] == label@[k],
            forall|k: int| i <= k < n ==> buf@[k] == before[k],
        decreases label.len() - i,
    {
        buf[i] = label[i];
        i = i + 1;
    }
    if i < label.len() {
        proof {
            assert(buf@.subrange(0, i as int) =~= text);
            assert(buf@.subrange(i as int, n as int) =~= before.subrange(i as int, n as int));
        }
        return i;
    }
    let room: usize = n - i;
    let from: usize = if room < digits.len() {
        digits.len() - room
    } else {
        0
    };
    let start: usize = i;
    let mut k: usize = from;
    while k < digits.len()
        invariant
            n == buf@.len(),
            buf@.len() == before.len(),
            from <= k <= digits.len(),
            start == label@.len(),
            start + (digits.len() - from) <= n,
            i == start + (k - from),
            forall|j: int| 0 <= j < start ==> buf@[j] == label@[j],
            forall|j: int| start <= j < i ==> buf@[j] == digits@[from + (j - start)],
            forall|j: int| i <= j < n ==> buf@[j] == before[j],
        decreases digits.len() - k,
    {
        buf[i] = digits[k];
        i = i + 1;
        k = k + 1;
    }
    proof {
        assert(buf@.subrange(0, i as int) =~= text);
        assert(buf@.subrange(i as int, n as int) =~= before.subrange(i as int, n as int));
    }
    i
}

/// A buffer of 25 bytes holds every counter whole.
pub proof fn counters_fit(counter: u64)
    ensures
        counter_text(counter, 25) == encode_utf8("tick="@) + dec_bytes(counter as nat),
{
    reveal_strlit("tick=");
    is_ascii_chars_encode_utf8("tick="@);
    assert("tick="@.len() == 5);
    assert(is_ascii_chars("tick="@));
    lemma_dec_bytes_len(counter as nat);
}

proof fn lemma_dec_bytes_len(n: nat)
    requires
        n <= u64::MAX,
    ensures
        dec_bytes(n).len() <= 20,
{
    reveal_with_fuel(dec_bytes, 21);
}

/// What a buffer shows of a counter: where there is room the label and all
/// digits; where there is less, the label and the last digits; and in five
/// bytes or fewer the beginning of the label.
pub proof fn counters_show(counter: u64, room: int)
    requires
        0 <= room,
    ensures
        ({
            let digits = dec_bytes(counter as nat);
            let label = seq![116u8, 105, 99, 107, 61];
            let n = digits.len() as int;
            &&& room >= 5 + n ==> counter_text(counter, room) == label + digits
            &&& 5 < room < 5 + n ==> counter_text(counter, room) == label + digits.subrange(
                n - (room - 5),
                n,
            )
            &&& room <= 5 ==> counter_text(counter, room) == label.subrange(0, room)
        }),
{
    reveal_strlit("tick=");
    is_ascii_chars_encode_utf8("tick="@);
    assert(encode_utf8("tick="@) =~= seq![116u8, 105, 99, 107, 61]);
}

} // verus!
