//! Choosing which app or driver to improve, and in which way.
use vstd::prelude::*;
use vstd::string::*;
use vstd::utf8::*;

use crate::draug::{
    DraugDaemon, DreamMode, DREAM_COOLDOWN_MS, DREAM_IDLE_DAY_MS, DREAM_IDLE_NIGHT_MS,
    DREAM_MAX_PER_SESSION, DREAM_STRIKE_LIMIT,
};
use crate::friction::{elapsed, most_frustrated_is_worst, ordered, score_from, worst_slot};

verus! {

broadcast use vstd::seq_lib::group_seq_properties;

/// Dreams after which the last one about a perfected app must have come for the
/// app to leave the cache.
pub const GC_DREAMS: u32 = 5;

/// The hash of a key: 33 times the hash so far plus the next byte, modulo 2^32.
pub open spec fn djb2(s: Seq<u8>) -> u32
    decreases s.len(),
{
    if s.len() == 0 {
        5381
    } else {
        ((djb2(s.drop_last()) * 33 + s.last()) % 0x1_0000_0000) as u32
    }
}

/// The hash of a text.
pub open spec fn hash_of(key: Seq<char>) -> u32 {
    djb2(encode_utf8(key))
}

/// The texts behind the slices.
pub open spec fn texts(s: Seq<&str>) -> Seq<Seq<char>> {
    Seq::new(s.len(), |i: int| s[i]@)
}

// ---------------------------------------------------------------------
// Strikes
// ---------------------------------------------------------------------

/// The first slot at or behind `i` that belongs to `h`.
pub open spec fn strike_slot(s: Seq<Option<(u32, u8)>>, h: u32, i: int) -> Option<int>
    decreases s.len() - i,
{
    if i >= s.len() {
        None
    } else if s[i] matches Some((k, _)) && k == h {
        Some(i)
    } else {
        strike_slot(s, h, i + 1)
    }
}

/// The first empty slot at or behind `i`.
pub open spec fn open_strike(s: Seq<Option<(u32, u8)>>, i: int) -> Option<int>
    decreases s.len() - i,
{
    if i >= s.len() {
        None
    } else if s[i] is None {
        Some(i)
    } else {
        open_strike(s, i + 1)
    }
}

/// Whether some slot holds enough strikes of `h`.
pub open spec fn perfected(s: Seq<Option<(u32, u8)>>, h: u32) -> bool {
    exists|i: int|
        0 <= i < s.len() && (#[trigger] s[i] matches Some((k, c)) && k == h && c
            >= DREAM_STRIKE_LIMIT)
}

/// The strikes of `h`.
pub open spec fn strike_count(s: Seq<Option<(u32, u8)>>, h: u32) -> int {
    match strike_slot(s, h, 0) {
        Some(i) => match s[i] {
            Some((_, c)) => c as int,
            None => 0,
        },
        None => 0,
    }
}

/// One more strike: the slot of `h` grows, or `h` takes an empty slot. With
/// neither, the strike is lost.
pub open spec fn struck(s: Seq<Option<(u32, u8)>>, h: u32) -> Seq<Option<(u32, u8)>> {
    match strike_slot(s, h, 0) {
        Some(i) => s.update(i, Some((h, (strike_count(s, h) + 1) as u8))),
        None => match open_strike(s, 0) {
            Some(i) => s.update(i, Some((h, 1u8))),
            None => s,
        },
    }
}

/// Without the strikes of `h`.
pub open spec fn pardoned(s: Seq<Option<(u32, u8)>>, h: u32) -> Seq<Option<(u32, u8)>> {
    match strike_slot(s, h, 0) {
        Some(i) => s.update(i, None),
        None => s,
    }
}

/// No two slots belong to one key.
pub open spec fn one_slot_each(s: Seq<Option<(u32, u8)>>) -> bool {
    forall|i: int, j: int|
        0 <= i < j < s.len() && (#[trigger] s[i]) is Some && (#[trigger] s[j]) is Some
            ==> s[i].unwrap().0 != s[j].unwrap().0
}

proof fn lemma_strike_slot(s: Seq<Option<(u32, u8)>>, h: u32, i: int)
    requires
        0 <= i,
    ensures
        match strike_slot(s, h, i) {
            Some(k) => i <= k < s.len() && s[k] is Some && s[k].unwrap().0 == h && forall|j: int|
                i <= j < k ==> !((#[trigger] s[j]) is Some && s[j].unwrap().0 == h),
            None => forall|j: int|
                i <= j < s.len() ==> !((#[trigger] s[j]) is Some && s[j].unwrap().0 == h),
        },
    decreases s.len() - i,
{
    if i < s.len() && !(s[i] is Some && s[i].unwrap().0 == h) {
        lemma_strike_slot(s, h, i + 1);
    }
}

proof fn lemma_open_strike(s: Seq<Option<(u32, u8)>>, i: int)
    requires
        0 <= i,
    ensures
        match open_strike(s, i) {
            Some(k) => i <= k < s.len() && s[k] is None,
            None => forall|j: int| i <= j < s.len() ==> (#[trigger] s[j]) is Some,
        },
    decreases s.len() - i,
{
    if i < s.len() && s[i] is Some {
        lemma_open_strike(s, i + 1);
    }
}

/// The slot of `h` at `k` is the one that is found.
proof fn lemma_slot_found(s: Seq<Option<(u32, u8)>>, h: u32, k: int)
    requires
        one_slot_each(s),
        0 <= k < s.len(),
        s[k] is Some,
        s[k].unwrap().0 == h,
    ensures
        strike_slot(s, h, 0) == Some(k),
{
    lemma_strike_slot(s, h, 0);
}

/// With one slot per key, a key is perfected exactly when it has enough
/// strikes.
pub proof fn perfected_means_struck_out(s: Seq<Option<(u32, u8)>>, h: u32)
    requires
        one_slot_each(s),
    ensures
        perfected(s, h) == (strike_count(s, h) >= DREAM_STRIKE_LIMIT),
{
    lemma_strike_slot(s, h, 0);
    match strike_slot(s, h, 0) {
        Some(i) => {
            if perfected(s, h) {
                let j = choose|j: int|
                    0 <= j < s.len() && (#[trigger] s[j] matches Some((k, c)) && k == h && c
                        >= DREAM_STRIKE_LIMIT);
                lemma_slot_found(s, h, j);
            }
            if strike_count(s, h) >= DREAM_STRIKE_LIMIT {
                assert(s[i] matches Some((k, c)) && k == h && c >= DREAM_STRIKE_LIMIT);
            }
        },
        None => {},
    }
}

/// A strike adds one to the strikes of its key, where the key has a slot or
/// one is empty, and leaves every other key alone.
pub proof fn strike_counts(s: Seq<Option<(u32, u8)>>, h: u32, other: u32)
    requires
        one_slot_each(s),
        strike_count(s, h) < 255,
    ensures
        one_slot_each(struck(s, h)),
        strike_slot(s, h, 0) is Some || open_strike(s, 0) is Some ==> strike_count(struck(s, h), h)
            == strike_count(s, h) + 1,
        other != h ==> strike_count(struck(s, h), other) == strike_count(s, other),
{
    lemma_strike_slot(s, h, 0);
    lemma_open_strike(s, 0);
    let t = struck(s, h);
    let at = match strike_slot(s, h, 0) {
        Some(i) => Some(i),
        None => open_strike(s, 0),
    };
    match at {
        Some(k) => {
            assert(t[k] is Some && t[k].unwrap().0 == h);
            assert(forall|j: int| 0 <= j < t.len() && j != k ==> #[trigger] t[j] == s[j]);
            assert forall|i: int, j: int|
                0 <= i < j < t.len() && (#[trigger] t[i]) is Some && (
                #[trigger] t[j]) is Some implies t[i].unwrap().0 != t[j].unwrap().0 by {
                if i == k {
                    assert(t[j] == s[j]);
                    if strike_slot(s, h, 0) is Some {
                        assert(s[i] is Some);
                    }
                } else if j == k {
                    assert(t[i] == s[i]);
                    if strike_slot(s, h, 0) is Some {
                        assert(s[j] is Some);
                    }
                } else {
                    assert(t[i] == s[i] && t[j] == s[j]);
                }
            }
            lemma_slot_found(t, h, k);
            if other != h {
                lemma_other_key(s, t, other, k);
            }
        },
        None => {},
    }
}

/// Changing a slot that never belonged to `other` leaves its strikes alone.
proof fn lemma_other_key(
    s: Seq<Option<(u32, u8)>>,
    t: Seq<Option<(u32, u8)>>,
    other: u32,
    k: int,
)
    requires
        one_slot_each(s),
        one_slot_each(t),
        s.len() == t.len(),
        0 <= k < s.len(),
        forall|j: int| 0 <= j < t.len() && j != k ==> #[trigger] t[j] == s[j],
        !(s[k] is Some && s[k].unwrap().0 == other),
        !(t[k] is Some && t[k].unwrap().0 == other),
    ensures
        strike_count(t, other) == strike_count(s, other),
{
    lemma_strike_slot(s, other, 0);
    lemma_strike_slot(t, other, 0);
    match strike_slot(s, other, 0) {
        Some(i) => {
            assert(i != k);
            assert(t[i] == s[i]);
            lemma_slot_found(t, other, i);
        },
        None => {
            match strike_slot(t, other, 0) {
                Some(i) => {
                    assert(i != k);
                    assert(t[i] == s[i]);
                },
                None => {},
            }
        },
    }
}

/// A pardoned key has no strikes, is not perfected, and no other key changes.
pub proof fn pardon_clears(s: Seq<Option<(u32, u8)>>, h: u32, other: u32)
    requires
        one_slot_each(s),
    ensures
        one_slot_each(pardoned(s, h)),
        strike_count(pardoned(s, h), h) == 0,
        !perfected(pardoned(s, h), h),
        other != h ==> strike_count(pardoned(s, h), other) == strike_count(s, other),
{
    lemma_strike_slot(s, h, 0);
    let t = pardoned(s, h);
    match strike_slot(s, h, 0) {
        Some(k) => {
            assert(forall|j: int| 0 <= j < t.len() && j != k ==> #[trigger] t[j] == s[j]);
            assert forall|i: int, j: int|
                0 <= i < j < t.len() && (#[trigger] t[i]) is Some && (
                #[trigger] t[j]) is Some implies t[i].unwrap().0 != t[j].unwrap().0 by {
                assert(t[i] == s[i] && t[j] == s[j]);
            }
            lemma_strike_slot(t, h, 0);
            match strike_slot(t, h, 0) {
                Some(i) => {
                    assert(i != k);
                    assert(t[i] == s[i]);
                    lemma_slot_found(s, h, i);
                },
                None => {},
            }
            if other != h {
                lemma_other_key(s, t, other, k);
            }
        },
        None => {},
    }
    perfected_means_struck_out(t, h);
}

/// Three strikes on an agent without any make the key perfected.
pub proof fn three_strikes_perfect(s: Seq<Option<(u32, u8)>>, h: u32)
    requires
        one_slot_each(s),
        strike_count(s, h) == 0,
        open_strike(s, 0) is Some,
        strike_slot(s, h, 0) is None,
    ensures
        perfected(struck(struck(struck(s, h), h), h), h),
        !perfected(struck(struck(s, h), h), h),
{
    let a = struck(s, h);
    let b = struck(a, h);
    let c = struck(b, h);
    strike_counts(s, h, h);
    strike_counts(a, h, h);
    assert(strike_slot(a, h, 0) is Some);
    strike_counts(b, h, h);
    assert(strike_slot(b, h, 0) is Some);
    perfected_means_struck_out(b, h);
    perfected_means_struck_out(c, h);
}

// ---------------------------------------------------------------------
// Journal and crashes
// ---------------------------------------------------------------------

/// The first slot at or behind `i` that belongs to `h`.
pub open spec fn journal_slot(s: Seq<Option<(u32, u32)>>, h: u32, i: int) -> Option<int>
    decreases s.len() - i,
{
    if i >= s.len() {
        None
    } else if s[i] matches Some((k, _)) && k == h {
        Some(i)
    } else {
        journal_slot(s, h, i + 1)
    }
}

/// The first empty slot at or behind `i`.
pub open spec fn open_page(s: Seq<Option<(u32, u32)>>, i: int) -> Option<int>
    decreases s.len() - i,
{
    if i >= s.len() {
        None
    } else if s[i] is None {
        Some(i)
    } else {
        open_page(s, i + 1)
    }
}

/// When a slot was written.
pub open spec fn page_when(s: Seq<Option<(u32, u32)>>, i: int) -> u32 {
    match s[i] {
        Some((_, when)) => when,
        None => 0,
    }
}

/// The first of the oldest among the first `k` slots.
pub open spec fn oldest_page(s: Seq<Option<(u32, u32)>>, k: int) -> int
    decreases k,
{
    if k <= 1 {
        0
    } else {
        let before = oldest_page(s, k - 1);
        if page_when(s, k - 1) < page_when(s, before) {
            k - 1
        } else {
            before
        }
    }
}

/// When a key was last dreamt about, 0 for never.
pub open spec fn dreamt(s: Seq<Option<(u32, u32)>>, h: u32) -> u32 {
    match journal_slot(s, h, 0) {
        Some(i) => page_when(s, i),
        None => 0,
    }
}

/// The journal with `h` dreamt about at `when`: in its own slot, in an empty
/// one, or in place of the oldest.
pub open spec fn journaled(s: Seq<Option<(u32, u32)>>, h: u32, when: u32) -> Seq<
    Option<(u32, u32)>,
> {
    match journal_slot(s, h, 0) {
        Some(i) => s.update(i, Some((h, when))),
        None => match open_page(s, 0) {
            Some(i) => s.update(i, Some((h, when))),
            None => s.update(oldest_page(s, s.len() as int), Some((h, when))),
        },
    }
}

proof fn lemma_journal_slot(s: Seq<Option<(u32, u32)>>, h: u32, i: int)
    requires
        0 <= i,
    ensures
        match journal_slot(s, h, i) {
            Some(k) => i <= k < s.len() && s[k] is Some && s[k].unwrap().0 == h && forall|j: int|
                i <= j < k ==> !((#[trigger] s[j]) is Some && s[j].unwrap().0 == h),
            None => forall|j: int|
                i <= j < s.len() ==> !((#[trigger] s[j]) is Some && s[j].unwrap().0 == h),
        },
    decreases s.len() - i,
{
    if i < s.len() && !(s[i] is Some && s[i].unwrap().0 == h) {
        lemma_journal_slot(s, h, i + 1);
    }
}

proof fn lemma_open_page(s: Seq<Option<(u32, u32)>>, i: int)
    requires
        0 <= i,
    ensures
        match open_page(s, i) {
            Some(k) => i <= k < s.len() && s[k] is None,
            None => forall|j: int| i <= j < s.len() ==> (#[trigger] s[j]) is Some,
        },
    decreases s.len() - i,
{
    if i < s.len() && s[i] is Some {
        lemma_open_page(s, i + 1);
    }
}

proof fn lemma_oldest_page(s: Seq<Option<(u32, u32)>>, k: int)
    requires
        0 < k <= s.len(),
    ensures
        0 <= oldest_page(s, k) < k,
    decreases k,
{
    if k > 1 {
        lemma_oldest_page(s, k - 1);
    }
}

/// What is written into the journal is read back.
pub proof fn journal_remembers(s: Seq<Option<(u32, u32)>>, h: u32, when: u32)
    requires
        s.len() > 0,
    ensures
        dreamt(journaled(s, h, when), h) == when,
{
    lemma_journal_slot(s, h, 0);
    lemma_open_page(s, 0);
    lemma_oldest_page(s, s.len() as int);
    let t = journaled(s, h, when);
    let k = match journal_slot(s, h, 0) {
        Some(i) => i,
        None => match open_page(s, 0) {
            Some(i) => i,
            None => oldest_page(s, s.len() as int),
        },
    };
    assert(t[k] == Some((h, when)));
    assert(forall|j: int| 0 <= j < k ==> #[trigger] t[j] == s[j]);
    lemma_journal_slot(t, h, 0);
}

/// Whether a crash of `h` is on record.
pub open spec fn crashed(s: Seq<(u32, u8)>, h: u32) -> bool {
    exists|i: int| 0 <= i < s.len() && (#[trigger] s[i]).0 == h && s[i].1 > 0
}

/// The first slot at or behind `i` with crashes of `h`.
pub open spec fn crash_slot(s: Seq<(u32, u8)>, h: u32, i: int) -> Option<int>
    decreases s.len() - i,
{
    if i >= s.len() {
        None
    } else if s[i].0 == h && s[i].1 > 0 {
        Some(i)
    } else {
        crash_slot(s, h, i + 1)
    }
}

/// The first free slot at or behind `i`.
pub open spec fn open_crash(s: Seq<(u32, u8)>, i: int) -> Option<int>
    decreases s.len() - i,
{
    if i >= s.len() {
        None
    } else if s[i].1 == 0 {
        Some(i)
    } else {
        open_crash(s, i + 1)
    }
}

/// The record after one more crash of `h`. With no slot left it is lost.
pub open spec fn crash_added(s: Seq<(u32, u8)>, h: u32) -> Seq<(u32, u8)> {
    match crash_slot(s, h, 0) {
        Some(i) => s.update(
            i,
            (
                h,
                if s[i].1 < 255 {
                    (s[i].1 + 1) as u8
                } else {
                    255u8
                },
            ),
        ),
        None => match open_crash(s, 0) {
            Some(i) => s.update(i, (h, 1u8)),
            None => s,
        },
    }
}

/// A recorded crash is on record, where a slot was free or already its own.
pub proof fn crash_is_recorded(s: Seq<(u32, u8)>, h: u32)
    requires
        crash_slot(s, h, 0) is Some || open_crash(s, 0) is Some,
    ensures
        crashed(crash_added(s, h), h),
{
    lemma_crash_slot(s, h, 0);
    lemma_open_crash(s, 0);
    let t = crash_added(s, h);
    match crash_slot(s, h, 0) {
        Some(i) => {
            assert(t[i].0 == h && t[i].1 > 0);
        },
        None => {
            let i = open_crash(s, 0).unwrap();
            assert(t[i].0 == h && t[i].1 > 0);
        },
    }
}

proof fn lemma_crash_slot(s: Seq<(u32, u8)>, h: u32, i: int)
    requires
        0 <= i,
    ensures
        match crash_slot(s, h, i) {
            Some(k) => i <= k < s.len() && s[k].0 == h && s[k].1 > 0,
            None => forall|j: int| i <= j < s.len() ==> !((#[trigger] s[j]).0 == h && s[j].1 > 0),
        },
    decreases s.len() - i,
{
    if i < s.len() && !(s[i].0 == h && s[i].1 > 0) {
        lemma_crash_slot(s, h, i + 1);
    }
}

proof fn lemma_open_crash(s: Seq<(u32, u8)>, i: int)
    requires
        0 <= i,
    ensures
        open_crash(s, i) matches Some(k) ==> i <= k < s.len() && s[k].1 == 0,
    decreases s.len() - i,
{
    if i < s.len() && s[i].1 != 0 {
        lemma_open_crash(s, i + 1);
    }
}

// ---------------------------------------------------------------------
// Choosing a dream
// ---------------------------------------------------------------------

/// Whether it is night: from 23:00 to 06:00.
pub open spec fn night(hour: u8) -> bool {
    hour >= 23 || hour < 6
}

impl DraugDaemon {
    /// Whether an app needs a dream: it frustrates, it crashed, or it is not
    /// perfected.
    pub open spec fn needs_dream(self, key: Seq<char>) -> bool {
        let h = hash_of(key);
        score_from(self.friction.scores@, h, 0) > 0 || crashed(self.crash_hashes@, h) || !perfected(
            self.strikes@,
            h,
        )
    }

    /// Whether an app was never dreamt about and is not perfected.
    pub open spec fn unseen(self, key: Seq<char>) -> bool {
        journal_slot(self.dream_journal@, hash_of(key), 0) is None && !perfected(
            self.strikes@,
            hash_of(key),
        )
    }

    /// The mode whose turn it is. Nightmares are for the night.
    pub open spec fn mode_in_turn(self, hour: u8) -> DreamMode {
        if self.dream_count % 3 == 0 {
            DreamMode::Refactor
        } else if self.dream_count % 3 == 1 {
            DreamMode::Creative
        } else if night(hour) {
            DreamMode::Nightmare
        } else {
            DreamMode::Creative
        }
    }

    /// Whether an app takes part in the rotation.
    pub open spec fn in_rotation(self, key: Seq<char>, mode: DreamMode) -> bool {
        self.needs_dream(key) && !(mode == DreamMode::Refactor && perfected(
            self.strikes@,
            hash_of(key),
        ))
    }

    /// Of the first `k` apps in rotation, the first that was dreamt about
    /// longest ago.
    pub open spec fn longest_ago(self, keys: Seq<Seq<char>>, mode: DreamMode, k: int) -> Option<int>
        decreases k,
    {
        if k <= 0 {
            None
        } else {
            let before = self.longest_ago(keys, mode, k - 1);
            let when = dreamt(self.dream_journal@, hash_of(keys[k - 1]));
            let bar = match before {
                Some(i) => dreamt(self.dream_journal@, hash_of(keys[i])),
                None => u32::MAX,
            };
            if self.in_rotation(keys[k - 1], mode) && when < bar {
                Some(k - 1)
            } else {
                before
            }
        }
    }

    /// The app to dream about and the mode: the most frustrating one first,
    /// then a crashed one, then one never seen, then the rotation. Nothing
    /// where no app needs a dream.
    pub open spec fn dream_choice(self, keys: Seq<Seq<char>>, hour: u8) -> Option<
        (int, DreamMode),
    > {
        let frustrating = match worst_slot(self.friction.scores@, 8) {
            Some(w) => first_key(keys, |k: Seq<char>| hash_of(k) == self.friction.scores@[w].0, 0),
            None => None,
        };
        if first_key(keys, |k: Seq<char>| self.needs_dream(k), 0) is None {
            None
        } else if frustrating is Some {
            Some((frustrating.unwrap(), DreamMode::Creative))
        } else {
            match first_key(keys, |k: Seq<char>| crashed(self.crash_hashes@, hash_of(k)), 0) {
                Some(i) => Some((i, DreamMode::Nightmare)),
                None => match first_key(keys, |k: Seq<char>| self.unseen(k), 0) {
                    Some(i) => Some((i, DreamMode::Refactor)),
                    None => match self.longest_ago(
                        keys,
                        self.mode_in_turn(hour),
                        keys.len() as int,
                    ) {
                        Some(i) => Some((i, self.mode_in_turn(hour))),
                        None => None,
                    },
                },
            }
        }
    }
}

/// The first key at or behind `i` with a property.
pub open spec fn first_key(
    keys: Seq<Seq<char>>,
    p: spec_fn(Seq<char>) -> bool,
    i: int,
) -> Option<int>
    decreases keys.len() - i,
{
    if i >= keys.len() {
        None
    } else if p(keys[i]) {
        Some(i)
    } else {
        first_key(keys, p, i + 1)
    }
}

proof fn lemma_first_key(keys: Seq<Seq<char>>, p: spec_fn(Seq<char>) -> bool, i: int)
    requires
        0 <= i,
    ensures
        match first_key(keys, p, i) {
            Some(k) => i <= k < keys.len() && p(keys[k]),
            None => forall|j: int| i <= j < keys.len() ==> !p(#[trigger] keys[j]),
        },
    decreases keys.len() - i,
{
    if i < keys.len() && !p(keys[i]) {
        lemma_first_key(keys, p, i + 1);
    }
}

proof fn lemma_longest_ago(d: DraugDaemon, keys: Seq<Seq<char>>, mode: DreamMode, k: int)
    requires
        0 <= k <= keys.len(),
    ensures
        d.longest_ago(keys, mode, k) matches Some(i) ==> 0 <= i < k && d.in_rotation(keys[i], mode),
    decreases k,
{
    if k > 0 {
        lemma_longest_ago(d, keys, mode, k - 1);
    }
}

/// A dream is only ever about an app that needs one; without such an app the
/// agent sleeps.
pub proof fn dreams_are_needed(d: DraugDaemon, keys: Seq<Seq<char>>, hour: u8)
    requires
        ordered(d.friction.scores@),
    ensures
        d.dream_choice(keys, hour) matches Some((i, _)) ==> 0 <= i < keys.len() && d.needs_dream(
            keys[i],
        ),
        (forall|i: int| 0 <= i < keys.len() ==> !d.needs_dream(#[trigger] keys[i]))
            ==> d.dream_choice(keys, hour) is None,
{
    let needs = |k: Seq<char>| d.needs_dream(k);
    let crash = |k: Seq<char>| crashed(d.crash_hashes@, hash_of(k));
    let unseen = |k: Seq<char>| d.unseen(k);
    lemma_first_key(keys, needs, 0);
    lemma_first_key(keys, crash, 0);
    lemma_first_key(keys, unseen, 0);
    lemma_longest_ago(d, keys, d.mode_in_turn(hour), keys.len() as int);
    most_frustrated_is_worst(d.friction.scores@);
    match worst_slot(d.friction.scores@, 8) {
        Some(w) => {
            lemma_first_key(keys, |k: Seq<char>| hash_of(k) == d.friction.scores@[w].0, 0);
        },
        None => {},
    }
}

/// With every app stable, that is perfected, without friction and without
/// crashes, no dream begins.
pub proof fn stable_apps_sleep(d: DraugDaemon, keys: Seq<Seq<char>>, hour: u8)
    requires
        forall|i: int|
            0 <= i < keys.len() ==> perfected(d.strikes@, hash_of(#[trigger] keys[i]))
                && score_from(d.friction.scores@, hash_of(keys[i]), 0) == 0 && !crashed(
                d.crash_hashes@,
                hash_of(keys[i]),
            ),
    ensures
        d.dream_choice(keys, hour) is None,
{
    lemma_first_key(keys, |k: Seq<char>| d.needs_dream(k), 0);
}

/// A perfected app is never refactored, and an app that did not crash has
/// nightmares only at night.
pub proof fn modes_fit_the_app(d: DraugDaemon, keys: Seq<Seq<char>>, hour: u8)
    ensures
        d.dream_choice(keys, hour) matches Some((i, mode)) ==> 0 <= i < keys.len() && (mode
            == DreamMode::Refactor ==> !perfected(d.strikes@, hash_of(keys[i]))) && (mode
            == DreamMode::Nightmare ==> crashed(d.crash_hashes@, hash_of(keys[i])) || night(hour)),
{
    let crash = |k: Seq<char>| crashed(d.crash_hashes@, hash_of(k));
    let unseen = |k: Seq<char>| d.unseen(k);
    lemma_first_key(keys, crash, 0);
    lemma_first_key(keys, unseen, 0);
    lemma_longest_ago(d, keys, d.mode_in_turn(hour), keys.len() as int);
    match worst_slot(d.friction.scores@, 8) {
        Some(w) => {
            lemma_first_key(keys, |k: Seq<char>| hash_of(k) == d.friction.scores@[w].0, 0);
        },
        None => {},
    }
}

// ---------------------------------------------------------------------
// Operations
// ---------------------------------------------------------------------

impl DraugDaemon {
    /// Whether it is night: from 23:00 to 06:00.
    pub fn is_nighttime(hour: u8) -> (r: bool)
        ensures
            r == night(hour),
    {
        hour >= 23 || hour < 6
    }

    /// Idle time before a dream at that hour.
    pub fn idle_threshold(hour: u8) -> (r: u64)
        ensures
            r == (if night(hour) {
                DREAM_IDLE_NIGHT_MS
            } else {
                DREAM_IDLE_DAY_MS
            }),
    {
        if Self::is_nighttime(hour) {
            DREAM_IDLE_NIGHT_MS
        } else {
            DREAM_IDLE_DAY_MS
        }
    }

    /// Whether a dream is due.
    pub fn should_dream(&self, now_ms: u64, hour: u8) -> (r: bool)
        ensures
            r == (self.active && !self.dreaming && !self.waiting_for_llm && self.dream_count
                < DREAM_MAX_PER_SESSION && elapsed(now_ms, self.last_user_input_ms) > (if night(
                hour,
            ) {
                DREAM_IDLE_NIGHT_MS
            } else {
                DREAM_IDLE_DAY_MS
            }) && elapsed(now_ms, self.last_dream_ms) > DREAM_COOLDOWN_MS),
    {
        self.active && !self.dreaming && !self.waiting_for_llm && self.dream_count
            < DREAM_MAX_PER_SESSION && now_ms.saturating_sub(self.last_user_input_ms)
            > Self::idle_threshold(hour) && now_ms.saturating_sub(self.last_dream_ms)
            > DREAM_COOLDOWN_MS
    }

    fn key_hash(key: &str) -> (r: u32)
        ensures
            r == hash_of(key@),
    {
        let b = key.as_bytes();
        let mut h: u32 = 5381;
        let mut i: usize = 0;
        while i < b.len()
            invariant
                i <= b.len(),
                b@ == encode_utf8(key@),
                h == djb2(b@.subrange(0, i as int)),
            decreases b.len() - i,
        {
            h = ((h as u64 * 33 + b[i] as u64) % 0x1_0000_0000) as u32;
            i = i + 1;
            assert(b@.subrange(0, i as int).drop_last() =~= b@.subrange(0, i - 1));
        }
        assert(b@.subrange(0, i as int) =~= b@);
        h
    }

    /// The hash by which an app is tracked.
    pub fn key_hash_pub(key: &str) -> (r: u32)
        ensures
            r == hash_of(key@),
    {
        Self::key_hash(key)
    }

    /// Whether an app has enough strikes to be left alone.
    pub fn is_perfected(&self, key: &str) -> (r: bool)
        ensures
            r == perfected(self.strikes@, hash_of(key@)),
    {
        let h: u32 = Self::key_hash(key);
        let mut i: usize = 0;
        while i < 8
            invariant
                i <= 8,
                h == hash_of(key@),
                forall|j: int|
                    0 <= j < i ==> !(#[trigger] self.strikes@[j] matches Some((k, c)) && k == h && c
                        >= DREAM_STRIKE_LIMIT),
            decreases 8 - i,
        {
            match self.strikes[i] {
                Some((k, c)) => {
                    if k == h && c >= DREAM_STRIKE_LIMIT {
                        assert(self.strikes@[i as int] matches Some((k, c)) && k == h && c
                            >= DREAM_STRIKE_LIMIT);
                        return true;
                    }
                },
                None => {},
            }
            i = i + 1;
        }
        false
    }

    /// Records a failed refactor of an app.
    pub fn add_strike(&mut self, key: &str)
        requires
            strike_count(old(self).strikes@, hash_of(key@)) < 255,
        ensures
            *final(self) == (DraugDaemon { strikes: final(self).strikes, ..*old(self) }),
            final(self).strikes@ == struck(old(self).strikes@, hash_of(key@)),
    {
        let h: u32 = Self::key_hash(key);
        self.add_strike_by_hash(h);
    }

    /// Records a failed refactor of the app with that hash.
    pub fn add_strike_by_hash(&mut self, h: u32)
        requires
            strike_count(old(self).strikes@, h) < 255,
        ensures
            *final(self) == (DraugDaemon { strikes: final(self).strikes, ..*old(self) }),
            final(self).strikes@ == struck(old(self).strikes@, h),
    {
        let mut i: usize = 0;
        while i < 8
            invariant
                i <= 8,
                *self == *old(self),
                strike_count(self.strikes@, h) < 255,
                strike_slot(self.strikes@, h, 0) == strike_slot(self.strikes@, h, i as int),
            decreases 8 - i,
        {
            match self.strikes[i] {
                Some((k, c)) => {
                    if k == h {
                        self.strikes[i] = Some((h, c + 1));
                        return;
                    }
                },
                None => {},
            }
            i = i + 1;
        }
        i = 0;
        while i < 8
            invariant
                i <= 8,
                *self == *old(self),
                strike_slot(self.strikes@, h, 0) is None,
                open_strike(self.strikes@, 0) == open_strike(self.strikes@, i as int),
            decreases 8 - i,
        {
            if self.strikes[i].is_none() {
                self.strikes[i] = Some((h, 1));
                return;
            }
            i = i + 1;
        }
    }

    /// Forgets the strikes of an app.
    pub fn reset_strikes(&mut self, key: &str)
        ensures
            *final(self) == (DraugDaemon { strikes: final(self).strikes, ..*old(self) }),
            final(self).strikes@ == pardoned(old(self).strikes@, hash_of(key@)),
    {
        let h: u32 = Self::key_hash(key);
        self.reset_strikes_by_hash(h);
    }

    /// Forgets the strikes of the app with that hash.
    pub fn reset_strikes_by_hash(&mut self, h: u32)
        ensures
            *final(self) == (DraugDaemon { strikes: final(self).strikes, ..*old(self) }),
            final(self).strikes@ == pardoned(old(self).strikes@, h),
    {
        let mut i: usize = 0;
        while i < 8
            invariant
                i <= 8,
                *self == *old(self),
                strike_slot(self.strikes@, h, 0) == strike_slot(self.strikes@, h, i as int),
            decreases 8 - i,
        {
            match self.strikes[i] {
                Some((k, _)) => {
                    if k == h {
                        self.strikes[i] = None;
                        return;
                    }
                },
                None => {},
            }
            i = i + 1;
        }
    }

    fn dreamt_at(&self, h: u32) -> (r: u32)
        ensures
            r == dreamt(self.dream_journal@, h),
    {
        let mut i: usize = 0;
        while i < 16
            invariant
                i <= 16,
                journal_slot(self.dream_journal@, h, 0) == journal_slot(
                    self.dream_journal@,
                    h,
                    i as int,
                ),
            decreases 16 - i,
        {
            match self.dream_journal[i] {
                Some((k, when)) => {
                    if k == h {
                        return when;
                    }
                },
                None => {},
            }
            i = i + 1;
        }
        0
    }

    /// Whether the journal holds an app.
    fn is_journaled(&self, key: &str) -> (r: bool)
        ensures
            r == (journal_slot(self.dream_journal@, hash_of(key@), 0) is Some),
    {
        let h: u32 = Self::key_hash(key);
        let mut i: usize = 0;
        while i < 16
            invariant
                i <= 16,
                h == hash_of(key@),
                journal_slot(self.dream_journal@, h, 0) == journal_slot(
                    self.dream_journal@,
                    h,
                    i as int,
                ),
            decreases 16 - i,
        {
            match self.dream_journal[i] {
                Some((k, _)) => {
                    if k == h {
                        return true;
                    }
                },
                None => {},
            }
            i = i + 1;
        }
        false
    }

    /// When an app was last dreamt about, 0 for never.
    pub fn last_dreamt_about(&self, key: &str) -> (r: u32)
        ensures
            r == dreamt(self.dream_journal@, hash_of(key@)),
    {
        let h: u32 = Self::key_hash(key);
        self.dreamt_at(h)
    }

    /// Notes that an app is dreamt about now.
    pub fn journal_record(&mut self, key: &str)
        ensures
            *final(self) == (DraugDaemon { dream_journal: final(self).dream_journal, ..*old(self)
            }),
            final(self).dream_journal@ == journaled(
                old(self).dream_journal@,
                hash_of(key@),
                old(self).dream_count,
            ),
    {
        let h: u32 = Self::key_hash(key);
        let mut i: usize = 0;
        while i < 16
            invariant
                i <= 16,
                *self == *old(self),
                h == hash_of(key@),
                journal_slot(self.dream_journal@, h, 0) == journal_slot(
                    self.dream_journal@,
                    h,
                    i as int,
                ),
            decreases 16 - i,
        {
            match self.dream_journal[i] {
                Some((k, _)) => {
                    if k == h {
                        self.dream_journal[i] = Some((h, self.dream_count));
                        return;
                    }
                },
                None => {},
            }
            i = i + 1;
        }
        i = 0;
        while i < 16
            invariant
                i <= 16,
                *self == *old(self),
                h == hash_of(key@),
                journal_slot(self.dream_journal@, h, 0) is None,
                open_page(self.dream_journal@, 0) == open_page(self.dream_journal@, i as int),
            decreases 16 - i,
        {
            if self.dream_journal[i].is_none() {
                self.dream_journal[i] = Some((h, self.dream_count));
                return;
            }
            i = i + 1;
        }
        proof {
            lemma_open_page(self.dream_journal@, 0);
        }
        let mut oldest: usize = 0;
        let mut oldest_when: u32 = match self.dream_journal[0] {
            Some((_, when)) => when,
            None => 0,
        };
        i = 1;
        while i < 16
            invariant
                1 <= i <= 16,
                oldest < 16,
                forall|j: int| 0 <= j < 16 ==> (#[trigger] self.dream_journal@[j]) is Some,
                oldest == oldest_page(self.dream_journal@, i as int),
                oldest_when == page_when(self.dream_journal@, oldest as int),
            decreases 16 - i,
        {
            match self.dream_journal[i] {
                Some((_, when)) => {
                    if when < oldest_when {
                        oldest_when = when;
                        oldest = i;
                    }
                },
                None => {},
            }
            i = i + 1;
        }
        self.dream_journal[oldest] = Some((h, self.dream_count));
    }

    fn has_crashed(&self, h: u32) -> (r: bool)
        ensures
            r == crashed(self.crash_hashes@, h),
    {
        let mut i: usize = 0;
        while i < 8
            invariant
                i <= 8,
                forall|j: int|
                    0 <= j < i ==> !((#[trigger] self.crash_hashes@[j]).0 == h
                        && self.crash_hashes@[j].1 > 0),
            decreases 8 - i,
        {
            if self.crash_hashes[i].0 == h && self.crash_hashes[i].1 > 0 {
                assert(self.crash_hashes@[i as int].0 == h && self.crash_hashes@[i as int].1 > 0);
                return true;
            }
            i = i + 1;
        }
        false
    }

    /// Whether an app needs a dream.
    pub fn app_needs_dream(&self, key: &str) -> (r: bool)
        ensures
            r == self.needs_dream(key@),
    {
        let h: u32 = Self::key_hash(key);
        if self.friction.score_for(h) > 0 {
            return true;
        }
        if self.has_crashed(h) {
            return true;
        }
        !self.is_perfected(key)
    }

    /// Enters a dream about an app.
    fn enter_dream(&mut self, key: &str, mode: DreamMode, now_ms: u64) -> (r: (String, DreamMode))
        ensures
            r.0@ == key@,
            r.1 == mode,
            final(self).dream_target matches Some(t) && t@ == key@,
            final(self).dream_journal@ == journaled(
                old(self).dream_journal@,
                hash_of(key@),
                old(self).dream_count,
            ),
            *final(self) == (DraugDaemon {
                dream_journal: final(self).dream_journal,
                dream_target: final(self).dream_target,
                dream_mode: mode,
                dreaming: true,
                last_dream_ms: now_ms,
                ..*old(self)
            }),
    {
        self.journal_record(key);
        self.dream_target = Some(key.to_owned());
        self.dream_mode = mode;
        self.dreaming = true;
        self.last_dream_ms = now_ms;
        (key.to_owned(), mode)
    }

    /// The first app with that hash.
    fn find_hash(keys: &[&str], h: u32) -> (r: Option<usize>)
        ensures
            match r {
                Some(i) => i < keys@.len() && first_key(
                    texts(keys@),
                    |k: Seq<char>| hash_of(k) == h,
                    0,
                ) == Some(i as int),
                None => first_key(texts(keys@), |k: Seq<char>| hash_of(k) == h, 0) is None,
            },
    {
        let ghost p = |k: Seq<char>| hash_of(k) == h;
        let mut i: usize = 0;
        while i < keys.len()
            invariant
                i <= keys.len(),
                p == (|k: Seq<char>| hash_of(k) == h),
                first_key(texts(keys@), p, 0) == first_key(texts(keys@), p, i as int),
            decreases keys.len() - i,
        {
            if Self::key_hash(keys[i]) == h {
                return Some(i);
            }
            i = i + 1;
        }
        None
    }

    /// The first app that needs a dream.
    fn find_needy(&self, keys: &[&str]) -> (r: Option<usize>)
        ensures
            match r {
                Some(i) => i < keys@.len() && first_key(
                    texts(keys@),
                    |k: Seq<char>| self.needs_dream(k),
                    0,
                ) == Some(i as int),
                None => first_key(texts(keys@), |k: Seq<char>| self.needs_dream(k), 0) is None,
            },
    {
        let ghost p = |k: Seq<char>| self.needs_dream(k);
        let mut i: usize = 0;
        while i < keys.len()
            invariant
                i <= keys.len(),
                p == (|k: Seq<char>| self.needs_dream(k)),
                first_key(texts(keys@), p, 0) == first_key(texts(keys@), p, i as int),
            decreases keys.len() - i,
        {
            if self.app_needs_dream(keys[i]) {
                return Some(i);
            }
            i = i + 1;
        }
        None
    }

    /// The first app that crashed.
    fn find_crashed(&self, keys: &[&str]) -> (r: Option<usize>)
        ensures
            match r {
                Some(i) => i < keys@.len() && first_key(
                    texts(keys@),
                    |k: Seq<char>| crashed(self.crash_hashes@, hash_of(k)),
                    0,
                ) == Some(i as int),
                None => first_key(
                    texts(keys@),
                    |k: Seq<char>| crashed(self.crash_hashes@, hash_of(k)),
                    0,
                ) is None,
            },
    {
        let ghost p = |k: Seq<char>| crashed(self.crash_hashes@, hash_of(k));
        let mut i: usize = 0;
        while i < keys.len()
            invariant
                i <= keys.len(),
                p == (|k: Seq<char>| crashed(self.crash_hashes@, hash_of(k))),
                first_key(texts(keys@), p, 0) == first_key(texts(keys@), p, i as int),
            decreases keys.len() - i,
        {
            let h: u32 = Self::key_hash(keys[i]);
            if self.has_crashed(h) {
                return Some(i);
            }
            i = i + 1;
        }
        None
    }

    /// The first app that was never dreamt about and is not perfected.
    fn find_unseen(&self, keys: &[&str]) -> (r: Option<usize>)
        ensures
            match r {
                Some(i) => i < keys@.len() && first_key(
                    texts(keys@),
                    |k: Seq<char>| self.unseen(k),
                    0,
                ) == Some(i as int),
                None => first_key(texts(keys@), |k: Seq<char>| self.unseen(k), 0) is None,
            },
    {
        let ghost p = |k: Seq<char>| self.unseen(k);
        let mut i: usize = 0;
        while i < keys.len()
            invariant
                i <= keys.len(),
                p == (|k: Seq<char>| self.unseen(k)),
                first_key(texts(keys@), p, 0) == first_key(texts(keys@), p, i as int),
            decreases keys.len() - i,
        {
            if !self.is_journaled(keys[i]) && !self.is_perfected(keys[i]) {
                return Some(i);
            }
            i = i + 1;
        }
        None
    }

    /// The app in rotation that was dreamt about longest ago.
    fn find_longest_ago(&self, keys: &[&str], mode: DreamMode) -> (r: Option<usize>)
        ensures
            match r {
                Some(i) => i < keys@.len() && self.longest_ago(
                    texts(keys@),
                    mode,
                    keys@.len() as int,
                ) == Some(i as int),
                None => self.longest_ago(texts(keys@), mode, keys@.len() as int) is None,
            },
    {
        let ghost ks = texts(keys@);
        let mut best: Option<usize> = None;
        let mut best_when: u32 = u32::MAX;
        let mut i: usize = 0;
        while i < keys.len()
            invariant
                i <= keys.len(),
                ks == texts(keys@),
                match best {
                    Some(b) => b < i && self.longest_ago(ks, mode, i as int) == Some(b as int)
                        && best_when == dreamt(self.dream_journal@, hash_of(ks[b as int])),
                    None => self.longest_ago(ks, mode, i as int) is None && best_when == u32::MAX,
                },
            decreases keys.len() - i,
        {
            let key: &str = keys[i];
            assert(ks[i as int] == key@);
            if self.app_needs_dream(key) && !(mode == DreamMode::Refactor && self.is_perfected(
                key,
            )) {
                let when: u32 = self.last_dreamt_about(key);
                if when < best_when {
                    best_when = when;
                    best = Some(i);
                }
            }
            i = i + 1;
        }
        best
    }

    /// The app to dream about and the mode.
    pub fn choose_dream(&self, cache_keys: &[&str], hour: u8) -> (r: Option<(usize, DreamMode)>)
        ensures
            match r {
                Some((i, mode)) => i < cache_keys@.len() && self.dream_choice(
                    texts(cache_keys@),
                    hour,
                ) == Some((i as int, mode)),
                None => self.dream_choice(texts(cache_keys@), hour) is None,
            },
    {
        if self.find_needy(cache_keys).is_none() {
            return None;
        }
        match self.friction.most_frustrated() {
            Some(h) => {
                match Self::find_hash(cache_keys, h) {
                    Some(i) => {
                        return Some((i, DreamMode::Creative));
                    },
                    None => {},
                }
            },
            None => {},
        }
        match self.find_crashed(cache_keys) {
            Some(i) => {
                return Some((i, DreamMode::Nightmare));
            },
            None => {},
        }
        match self.find_unseen(cache_keys) {
            Some(i) => {
                return Some((i, DreamMode::Refactor));
            },
            None => {},
        }
        let turn: u32 = self.dream_count % 3;
        let mode = if turn == 0 {
            DreamMode::Refactor
        } else if turn == 1 {
            DreamMode::Creative
        } else if Self::is_nighttime(hour) {
            DreamMode::Nightmare
        } else {
            DreamMode::Creative
        };
        match self.find_longest_ago(cache_keys, mode) {
            Some(i) => Some((i, mode)),
            None => None,
        }
    }

    /// Picks an app and a mode and enters the dream; nothing happens where no
    /// app needs one.
    pub fn start_dream(&mut self, cache_keys: &[&str], now_ms: u64, hour: u8) -> (r: Option<
        (String, DreamMode),
    >)
        ensures
            match old(self).dream_choice(texts(cache_keys@), hour) {
                Some((i, mode)) => {
                    let key = cache_keys@[i]@;
                    &&& 0 <= i < cache_keys@.len()
                    &&& r matches Some((target, m)) && target@ == key && m == mode
                    &&& final(self).dream_target matches Some(t) && t@ == key
                    &&& final(self).dream_journal@ == journaled(
                        old(self).dream_journal@,
                        hash_of(key),
                        old(self).dream_count,
                    )
                    &&& *final(self) == (DraugDaemon {
                        dream_journal: final(self).dream_journal,
                        dream_target: final(self).dream_target,
                        dream_mode: mode,
                        dreaming: true,
                        last_dream_ms: now_ms,
                        ..*old(self)
                    })
                },
                None => r is None && *final(self) == *old(self),
            },
    {
        match self.choose_dream(cache_keys, hour) {
            Some((i, mode)) => Some(self.enter_dream(cache_keys[i], mode, now_ms)),
            None => None,
        }
    }

    /// Records a crash of an app.
    pub fn record_crash(&mut self, key: &str)
        ensures
            *final(self) == (DraugDaemon { crash_hashes: final(self).crash_hashes, ..*old(self) }),
            final(self).crash_hashes@ == crash_added(old(self).crash_hashes@, hash_of(key@)),
    {
        let h: u32 = Self::key_hash(key);
        let mut i: usize = 0;
        while i < 8
            invariant
                i <= 8,
                *self == *old(self),
                h == hash_of(key@),
                crash_slot(self.crash_hashes@, h, 0) == crash_slot(
                    self.crash_hashes@,
                    h,
                    i as int,
                ),
            decreases 8 - i,
        {
            let e: (u32, u8) = self.crash_hashes[i];
            if e.0 == h && e.1 > 0 {
                self.crash_hashes[i] = (h, e.1.saturating_add(1));
                return;
            }
            i = i + 1;
        }
        i = 0;
        while i < 8
            invariant
                i <= 8,
                *self == *old(self),
                h == hash_of(key@),
                crash_slot(self.crash_hashes@, h, 0) is None,
                open_crash(self.crash_hashes@, 0) == open_crash(self.crash_hashes@, i as int),
            decreases 8 - i,
        {
            if self.crash_hashes[i].1 == 0 {
                self.crash_hashes[i] = (h, 1);
                return;
            }
            i = i + 1;
        }
    }

    /// Ends a dream and counts it.
    pub fn on_dream_complete(&mut self, now_ms: u64)
        requires
            old(self).dream_count < u32::MAX,
        ensures
            *final(self) == (DraugDaemon {
                dreaming: false,
                dream_count: (old(self).dream_count + 1) as u32,
                last_dream_ms: now_ms,
                dream_target: None,
                ..*old(self)
            }),
    {
        self.dreaming = false;
        self.dream_count = self.dream_count + 1;
        self.last_dream_ms = now_ms;
        self.dream_target = None;
    }

    /// Breaks a dream off.
    pub fn wake_up(&mut self)
        ensures
            *final(self) == (if old(self).dreaming {
                DraugDaemon { dreaming: false, dream_target: None, ..*old(self) }
            } else {
                *old(self)
            }),
    {
        if self.dreaming {
            self.dreaming = false;
            self.dream_target = None;
        }
    }

    pub fn dream_target(&self) -> (r: Option<&str>)
        ensures
            match (r, self.dream_target) {
                (Some(a), Some(b)) => a@ == b@,
                (None, None) => true,
                _ => false,
            },
    {
        match &self.dream_target {
            Some(t) => Some(t.as_str()),
            None => None,
        }
    }

    pub fn is_dreaming(&self) -> (r: bool)
        ensures
            r == self.dreaming,
    {
        self.dreaming
    }

    pub fn dream_count(&self) -> (r: u32)
        ensures
            r == self.dream_count,
    {
        self.dream_count
    }

    pub fn current_dream_mode(&self) -> (r: DreamMode)
        ensures
            r == self.dream_mode,
    {
        self.dream_mode
    }

    /// The apps whose old versions can go: perfected, and dreamt about at a
    /// count of five or more.
    pub fn gc_candidates<'a>(&self, cache_keys: &[&'a str]) -> (r: Vec<&'a str>)
        ensures
            texts(r@) == gc_keys(
                self.strikes@,
                self.dream_journal@,
                texts(cache_keys@),
            ),
    {
        let mut out: Vec<&'a str> = Vec::new();
        let mut i: usize = 0;
        while i < cache_keys.len()
            invariant
                i <= cache_keys.len(),
                texts(out@) == gc_keys(
                    self.strikes@,
                    self.dream_journal@,
                    texts(cache_keys@).subrange(0, i as int),
                ),
            decreases cache_keys.len() - i,
        {
            let key: &'a str = cache_keys[i];
            let ghost kept = texts(out@);
            if self.is_perfected(key) {
                if self.last_dreamt_about(key) > GC_DREAMS {
                    out.push(key);
                    assert(texts(out@) =~= kept.push(key@));
                }
            }
            i = i + 1;
            proof {
                let now = texts(cache_keys@).subrange(0, i as int);
                assert(now.drop_last() =~= texts(cache_keys@).subrange(0, i - 1));
                assert(now.last() == key@);
            }
        }
        assert(texts(cache_keys@).subrange(0, i as int) =~= texts(cache_keys@));
        out
    }

    /// All strikes together.
    pub fn total_strikes(&self) -> (r: u32)
        ensures
            r == strike_sum(self.strikes@, 8),
    {
        let mut n: u32 = 0;
        let mut i: usize = 0;
        while i < 8
            invariant
                i <= 8,
                n <= 255 * i,
                n == strike_sum(self.strikes@, i as int),
            decreases 8 - i,
        {
            match self.strikes[i] {
                Some((_, c)) => {
                    n = n + c as u32;
                },
                None => {},
            }
            i = i + 1;
        }
        n
    }

    /// How many of the apps are perfected.
    pub fn perfected_count(&self, cache_keys: &[&str]) -> (r: usize)
        ensures
            r == perfected_among(self.strikes@, texts(cache_keys@), cache_keys@.len() as int),
    {
        let mut n: usize = 0;
        let mut i: usize = 0;
        while i < cache_keys.len()
            invariant
                n <= i <= cache_keys.len(),
                n == perfected_among(self.strikes@, texts(cache_keys@), i as int),
            decreases cache_keys.len() - i,
        {
            if self.is_perfected(cache_keys[i]) {
                n = n + 1;
            }
            i = i + 1;
        }
        n
    }

    /// The driver that needs a dream most, with its mode.
    pub fn pick_driver_dream(&self, drivers: &[(u16, u16, u16, u16, u32)]) -> (r: Option<
        (u16, u16, DreamMode),
    >)
        ensures
            r == (match shakiest(drivers@, drivers@.len() as int) {
                Some(i) => Some(
                    (
                        drivers@[i].0,
                        drivers@[i].1,
                        if drivers@[i].3 < 200 {
                            DreamMode::DriverNightmare
                        } else {
                            DreamMode::DriverRefactor
                        },
                    ),
                ),
                None => None,
            }),
    {
        let mut worst: Option<usize> = None;
        let mut i: usize = 0;
        while i < drivers.len()
            invariant
                i <= drivers.len(),
                match worst {
                    Some(w) => w < i && shakiest(drivers@, i as int) == Some(w as int),
                    None => shakiest(drivers@, i as int) is None,
                },
            decreases drivers.len() - i,
        {
            let d: (u16, u16, u16, u16, u32) = drivers[i];
            if d.4 > 0 || d.3 < 500 {
                let better: bool = match worst {
                    Some(w) => d.3 < drivers[w].3,
                    None => true,
                };
                if better {
                    worst = Some(i);
                }
            }
            i = i + 1;
        }
        match worst {
            Some(w) => {
                let d: (u16, u16, u16, u16, u32) = drivers[w];
                if d.3 < 200 {
                    Some((d.0, d.1, DreamMode::DriverNightmare))
                } else {
                    Some((d.0, d.1, DreamMode::DriverRefactor))
                }
            },
            None => None,
        }
    }
}

/// The keys whose old versions can go, in their order.
pub open spec fn gc_keys(
    strikes: Seq<Option<(u32, u8)>>,
    journal: Seq<Option<(u32, u32)>>,
    keys: Seq<Seq<char>>,
) -> Seq<Seq<char>>
    decreases keys.len(),
{
    if keys.len() == 0 {
        Seq::empty()
    } else {
        let before = gc_keys(strikes, journal, keys.drop_last());
        let h = hash_of(keys.last());
        if perfected(strikes, h) && dreamt(journal, h) > GC_DREAMS {
            before.push(keys.last())
        } else {
            before
        }
    }
}

/// The strikes of the first `k` slots.
pub open spec fn strike_sum(s: Seq<Option<(u32, u8)>>, k: int) -> int
    decreases k,
{
    if k <= 0 {
        0
    } else {
        strike_sum(s, k - 1) + (match s[k - 1] {
            Some((_, c)) => c as int,
            None => 0,
        })
    }
}

/// How many of the first `k` keys are perfected.
pub open spec fn perfected_among(
    s: Seq<Option<(u32, u8)>>,
    keys: Seq<Seq<char>>,
    k: int,
) -> int
    decreases k,
{
    if k <= 0 {
        0
    } else {
        perfected_among(s, keys, k - 1) + (if perfected(s, hash_of(keys[k - 1])) {
            1int
        } else {
            0
        })
    }
}

/// Of the first `k` drivers (vendor, device, version, stability, faults) that
/// had faults or are unstable, the first with the lowest stability.
pub open spec fn shakiest(d: Seq<(u16, u16, u16, u16, u32)>, k: int) -> Option<int>
    decreases k,
{
    if k <= 0 {
        None
    } else {
        let before = shakiest(d, k - 1);
        let e = d[k - 1];
        if e.4 == 0 && e.3 >= 500 {
            before
        } else {
            match before {
                Some(i) => if e.3 < d[i].3 {
                    Some(k - 1)
                } else {
                    before
                },
                None => Some(k - 1),
            }
        }
    }
}

// ---------------------------------------------------------------------
// What the choice of a dream means
// ---------------------------------------------------------------------

/// The hash of a key goes on byte by byte from 5381: 33 times what was there
/// and the byte, within 32 bits.
pub proof fn hashes_go_on(s: Seq<u8>, b: u8)
    ensures
        djb2(Seq::empty()) == 5381,
        djb2(s.push(b)) == (33 * djb2(s) + b) % 4_294_967_296,
{
    assert(s.push(b).drop_last() =~= s);
}

/// Three strikes perfect a key, two do not.
pub proof fn three_strikes_count(s: Seq<Option<(u32, u8)>>, h: u32)
    requires
        one_slot_each(s),
    ensures
        perfected(s, h) <==> strike_count(s, h) >= 3,
        (forall|i: int| 0 <= i < s.len() ==> !((#[trigger] s[i]) is Some && s[i].unwrap().0 == h))
            ==> strike_count(s, h) == 0,
        forall|i: int|
            0 <= i < s.len() && (#[trigger] s[i]) is Some && s[i].unwrap().0 == h ==> strike_count(
                s,
                h,
            ) == s[i].unwrap().1,
{
    perfected_means_struck_out(s, h);
    lemma_strike_slot(s, h, 0);
    assert forall|i: int| 0 <= i < s.len() && (#[trigger] s[i]) is Some && s[i].unwrap().0
        == h implies strike_count(s, h) == s[i].unwrap().1 by {
        lemma_slot_found(s, h, i);
    }
}

/// A strike is lost only where eight other keys hold all the slots.
pub proof fn strikes_find_a_slot(s: Seq<Option<(u32, u8)>>, h: u32)
    requires
        one_slot_each(s),
        strike_count(s, h) < 255,
        exists|i: int| 0 <= i < s.len() && ((#[trigger] s[i]) is None || s[i].unwrap().0 == h),
    ensures
        strike_count(struck(s, h), h) == strike_count(s, h) + 1,
{
    lemma_strike_slot(s, h, 0);
    lemma_open_strike(s, 0);
    strike_counts(s, h, h);
}

/// A note in the journal keeps the notes on other keys, except that a full
/// journal gives up one of its oldest.
pub proof fn notes_spare_others(s: Seq<Option<(u32, u32)>>, h: u32, when: u32, i: int)
    requires
        0 <= i < s.len(),
        s[i] is Some,
        s[i].unwrap().0 != h,
    ensures
        journaled(s, h, when).len() == s.len(),
        journaled(s, h, when)[i] == s[i] || ((forall|j: int|
            0 <= j < s.len() ==> (#[trigger] s[j]) is Some && s[j].unwrap().0 != h
                && s[j].unwrap().1 >= s[i].unwrap().1) && journaled(s, h, when)[i] == Some(
            (h, when),
        )),
{
    lemma_journal_slot(s, h, 0);
    lemma_open_page(s, 0);
    lemma_oldest_is_oldest(s, s.len() as int);
}

proof fn lemma_oldest_is_oldest(s: Seq<Option<(u32, u32)>>, k: int)
    requires
        0 < k <= s.len(),
    ensures
        0 <= oldest_page(s, k) < k,
        forall|j: int| 0 <= j < k ==> page_when(s, oldest_page(s, k)) <= #[trigger] page_when(s, j),
        forall|j: int|
            0 <= j < k && (#[trigger] s[j]) is Some && s[oldest_page(s, k)] is Some
                ==> s[oldest_page(s, k)].unwrap().1 <= s[j].unwrap().1,
    decreases k,
{
    if k > 1 {
        lemma_oldest_is_oldest(s, k - 1);
    }
    assert forall|j: int|
        0 <= j < k && (#[trigger] s[j]) is Some && s[oldest_page(s, k)] is Some implies s[oldest_page(
        s,
        k,
    )].unwrap().1 <= s[j].unwrap().1 by {
        assert(page_when(s, oldest_page(s, k)) <= page_when(s, j));
    }
}

/// A recorded crash leaves the other records alone.
pub proof fn crashes_spare_others(s: Seq<(u32, u8)>, h: u32, other: u32)
    requires
        other != h,
    ensures
        crashed(crash_added(s, h), other) == crashed(s, other),
{
    lemma_crash_slot(s, h, 0);
    lemma_open_crash(s, 0);
    let t = crash_added(s, h);
    if crashed(s, other) {
        let i = choose|i: int| 0 <= i < s.len() && (#[trigger] s[i]).0 == other && s[i].1 > 0;
        assert(t[i].0 == other && t[i].1 > 0);
    }
    if crashed(t, other) {
        let i = choose|i: int| 0 <= i < t.len() && (#[trigger] t[i]).0 == other && t[i].1 > 0;
        assert(s[i].0 == other && s[i].1 > 0);
    }
}

/// Night is from eleven in the evening until six in the morning.
pub proof fn nights_are_long(hour: u8)
    requires
        hour < 24,
    ensures
        night(hour) <==> hour == 23 || hour <= 5,
{
}

/// An app needs a dream where it frustrates at all, where a crash is on record,
/// or where it has not had its three strikes.
pub proof fn needs_are_three(d: DraugDaemon, key: Seq<char>)
    requires
        one_slot_each(d.strikes@),
    ensures
        d.needs_dream(key) <==> score_from(d.friction.scores@, hash_of(key), 0) > 0 || crashed(
            d.crash_hashes@,
            hash_of(key),
        ) || strike_count(d.strikes@, hash_of(key)) < 3,
{
    perfected_means_struck_out(d.strikes@, hash_of(key));
}

proof fn lemma_first_of_keys(keys: Seq<Seq<char>>, p: spec_fn(Seq<char>) -> bool, i: int, k: int)
    requires
        0 <= i <= k < keys.len(),
        p(keys[k]),
        forall|j: int| i <= j < k ==> !p(#[trigger] keys[j]),
    ensures
        first_key(keys, p, i) == Some(k),
    decreases k - i,
{
    if i < k {
        assert(!p(keys[i]));
        lemma_first_of_keys(keys, p, i + 1, k);
    }
}

/// The most frustrating app goes first, for a better look, whatever the others
/// need: where its score is above fifteen and no score is higher.
#[verifier::rlimit(40)]
pub proof fn frustration_goes_first(d: DraugDaemon, keys: Seq<Seq<char>>, hour: u8, k: int, w: int)
    requires
        ordered(d.friction.scores@),
        0 <= k < keys.len(),
        0 <= w < 8,
        d.friction.scores@[w].0 == hash_of(keys[k]),
        d.friction.scores@[w].1 > 15,
        forall|j: int|
            0 <= j < 8 && j != w ==> (#[trigger] d.friction.scores@[j]).1 < d.friction.scores@[w].1,
        forall|j: int| 0 <= j < k ==> hash_of(#[trigger] keys[j]) != hash_of(keys[k]),
    ensures
        d.dream_choice(keys, hour) == Some((k, DreamMode::Creative)),
{
    let s = d.friction.scores@;
    most_frustrated_is_worst(s);
    let x = worst_slot(s, 8)->0;
    assert(worst_slot(s, 8) is Some) by {
        if worst_slot(s, 8) is None {
            assert(s[w].1 <= 15);
        }
    }
    assert(x == w) by {
        if x != w {
            assert(s[x].1 < s[w].1);
            assert(s[w].1 <= s[x].1);
        }
    }
    assert(score_from(s, hash_of(keys[k]), 0) == s[w].1);
    assert(d.needs_dream(keys[k]));
    lemma_first_key(keys, |q: Seq<char>| d.needs_dream(q), 0);
    lemma_first_of_keys(keys, |q: Seq<char>| hash_of(q) == s[w].0, 0, k);
}

/// Without frustration the first app with a crash on record goes first, to be
/// hardened.
pub proof fn crashes_go_second(d: DraugDaemon, keys: Seq<Seq<char>>, hour: u8, k: int)
    requires
        0 <= k < keys.len(),
        forall|j: int| 0 <= j < 8 ==> (#[trigger] d.friction.scores@[j]).1 <= 15,
        crashed(d.crash_hashes@, hash_of(keys[k])),
        forall|j: int| 0 <= j < k ==> !crashed(d.crash_hashes@, hash_of(#[trigger] keys[j])),
    ensures
        d.dream_choice(keys, hour) == Some((k, DreamMode::Nightmare)),
{
    lemma_no_worst(d, 8);
    assert(d.needs_dream(keys[k]));
    lemma_first_key(keys, |q: Seq<char>| d.needs_dream(q), 0);
    lemma_first_of_keys(keys, |q: Seq<char>| crashed(d.crash_hashes@, hash_of(q)), 0, k);
}

proof fn lemma_no_worst(d: DraugDaemon, k: int)
    requires
        0 <= k <= 8,
        forall|j: int| 0 <= j < 8 ==> (#[trigger] d.friction.scores@[j]).1 <= 15,
    ensures
        worst_slot(d.friction.scores@, k) is None,
    decreases k,
{
    if k > 0 {
        lemma_no_worst(d, k - 1);
        assert(d.friction.scores@[k - 1].1 <= 15);
    }
}

/// Without frustration and crashes the first app that was never dreamt about
/// and is not perfected goes first, to be refactored.
pub proof fn new_apps_go_third(d: DraugDaemon, keys: Seq<Seq<char>>, hour: u8, k: int)
    requires
        0 <= k < keys.len(),
        forall|j: int| 0 <= j < 8 ==> (#[trigger] d.friction.scores@[j]).1 <= 15,
        forall|j: int|
            0 <= j < keys.len() ==> !crashed(d.crash_hashes@, hash_of(#[trigger] keys[j])),
        !perfected(d.strikes@, hash_of(keys[k])),
        forall|i: int|
            0 <= i < d.dream_journal@.len() ==> !((#[trigger] d.dream_journal@[i]) is Some
                && d.dream_journal@[i].unwrap().0 == hash_of(keys[k])),
        forall|j: int|
            0 <= j < k ==> perfected(d.strikes@, hash_of(#[trigger] keys[j])) || journal_slot(
                d.dream_journal@,
                hash_of(keys[j]),
                0,
            ) is Some,
    ensures
        d.dream_choice(keys, hour) == Some((k, DreamMode::Refactor)),
{
    lemma_no_worst(d, 8);
    lemma_journal_slot(d.dream_journal@, hash_of(keys[k]), 0);
    assert(d.needs_dream(keys[k]));
    lemma_first_key(keys, |q: Seq<char>| d.needs_dream(q), 0);
    lemma_first_key(keys, |q: Seq<char>| crashed(d.crash_hashes@, hash_of(q)), 0);
    lemma_first_of_keys(keys, |q: Seq<char>| d.unseen(q), 0, k);
}

/// The journal holds a key exactly where a slot names it, and then says when.
pub proof fn notes_are_found(s: Seq<Option<(u32, u32)>>, h: u32, k: int)
    ensures
        journal_slot(s, h, 0) is Some <==> exists|i: int|
            0 <= i < s.len() && (#[trigger] s[i]) is Some && s[i].unwrap().0 == h,
        0 <= k < s.len() && s[k] is Some && s[k].unwrap().0 == h && (forall|j: int|
            0 <= j < k ==> !((#[trigger] s[j]) is Some && s[j].unwrap().0 == h)) ==> dreamt(s, h)
            == s[k].unwrap().1,
        journal_slot(s, h, 0) is None ==> dreamt(s, h) == 0,
{
    lemma_journal_slot(s, h, 0);
    if journal_slot(s, h, 0) is Some {
        let i = journal_slot(s, h, 0)->0;
        assert(s[i] is Some);
    }
}

proof fn lemma_rotation(d: DraugDaemon, keys: Seq<Seq<char>>, mode: DreamMode, k: int)
    requires
        0 <= k <= keys.len(),
    ensures
        match d.longest_ago(keys, mode, k) {
            Some(i) => {
                &&& 0 <= i < k
                &&& d.in_rotation(keys[i], mode)
                &&& dreamt(d.dream_journal@, hash_of(keys[i])) < u32::MAX
                &&& forall|j: int|
                    0 <= j < k && d.in_rotation(#[trigger] keys[j], mode) ==> dreamt(
                        d.dream_journal@,
                        hash_of(keys[i]),
                    ) <= dreamt(d.dream_journal@, hash_of(keys[j]))
                &&& forall|j: int|
                    0 <= j < i && d.in_rotation(#[trigger] keys[j], mode) ==> dreamt(
                        d.dream_journal@,
                        hash_of(keys[i]),
                    ) < dreamt(d.dream_journal@, hash_of(keys[j]))
            },
            None => forall|j: int|
                0 <= j < k && d.in_rotation(#[trigger] keys[j], mode) ==> dreamt(
                    d.dream_journal@,
                    hash_of(keys[j]),
                ) == u32::MAX,
        },
    decreases k,
{
    if k > 0 {
        lemma_rotation(d, keys, mode, k - 1);
    }
}

/// Behind all that the rotation decides: of the apps that need a dream the one
/// that was dreamt about longest ago, in the mode whose turn it is. Every third
/// dream refactors, and passes over perfected apps; every third may be a
/// nightmare at night; the rest are for the look.
#[verifier::rlimit(40)]
pub proof fn the_rotation_decides(d: DraugDaemon, keys: Seq<Seq<char>>, hour: u8, i: int, mode: DreamMode)
    requires
        d.dream_choice(keys, hour) == Some((i, mode)),
        forall|j: int| 0 <= j < 8 ==> (#[trigger] d.friction.scores@[j]).1 <= 15,
        forall|j: int|
            0 <= j < keys.len() ==> !crashed(d.crash_hashes@, hash_of(#[trigger] keys[j])),
        forall|j: int|
            0 <= j < keys.len() ==> perfected(d.strikes@, hash_of(#[trigger] keys[j]))
                || journal_slot(d.dream_journal@, hash_of(keys[j]), 0) is Some,
    ensures
        d.dream_count % 3 == 0 ==> mode == DreamMode::Refactor,
        d.dream_count % 3 == 1 ==> mode == DreamMode::Creative,
        d.dream_count % 3 == 2 ==> mode == if night(hour) {
            DreamMode::Nightmare
        } else {
            DreamMode::Creative
        },
        0 <= i < keys.len(),
        d.needs_dream(keys[i]),
        forall|j: int|
            0 <= j < keys.len() && d.needs_dream(#[trigger] keys[j]) && !(mode
                == DreamMode::Refactor && perfected(d.strikes@, hash_of(keys[j]))) ==> dreamt(
                d.dream_journal@,
                hash_of(keys[i]),
            ) <= dreamt(d.dream_journal@, hash_of(keys[j])),
{
    lemma_no_worst(d, 8);
    lemma_first_key(keys, |q: Seq<char>| crashed(d.crash_hashes@, hash_of(q)), 0);
    lemma_first_key(keys, |q: Seq<char>| d.unseen(q), 0);
    lemma_rotation(d, keys, d.mode_in_turn(hour), keys.len() as int);
    assert forall|j: int|
        0 <= j < keys.len() && d.needs_dream(#[trigger] keys[j]) && !(mode == DreamMode::Refactor
            && perfected(d.strikes@, hash_of(keys[j]))) implies dreamt(
        d.dream_journal@,
        hash_of(keys[i]),
    ) <= dreamt(d.dream_journal@, hash_of(keys[j])) by {
        assert(d.in_rotation(keys[j], mode));
    }
}

/// The keys whose old versions can go are exactly those that are perfected and
/// were dreamt about after the fifth dream, in their order.
pub proof fn old_versions_go(
    strikes: Seq<Option<(u32, u8)>>,
    journal: Seq<Option<(u32, u32)>>,
    keys: Seq<Seq<char>>,
)
    ensures
        gc_keys(strikes, journal, keys) == keys.filter(
            |k: Seq<char>| perfected(strikes, hash_of(k)) && dreamt(journal, hash_of(k)) > 5,
        ),
    decreases keys.len(),
{
    reveal(Seq::filter);
    if keys.len() > 0 {
        old_versions_go(strikes, journal, keys.drop_last());
    }
}

/// How many keys are perfected.
pub proof fn perfected_keys_are_counted(s: Seq<Option<(u32, u8)>>, keys: Seq<Seq<char>>)
    ensures
        perfected_among(s, keys, keys.len() as int) == keys.filter(
            |k: Seq<char>| perfected(s, hash_of(k)),
        ).len(),
    decreases keys.len(),
{
    reveal(Seq::filter);
    if keys.len() > 0 {
        perfected_keys_are_counted(s, keys.drop_last());
        lemma_perfected_front(s, keys, keys.len() - 1);
    }
}

proof fn lemma_perfected_front(s: Seq<Option<(u32, u8)>>, keys: Seq<Seq<char>>, k: int)
    requires
        0 <= k < keys.len(),
    ensures
        perfected_among(s, keys, k) == perfected_among(s, keys.drop_last(), k),
    decreases k,
{
    if k > 0 {
        lemma_perfected_front(s, keys, k - 1);
    }
}

/// The sum of strikes: an empty slot adds nothing and any other its count.
pub proof fn strikes_are_summed(s: Seq<Option<(u32, u8)>>, k: int)
    requires
        0 < k <= s.len(),
    ensures
        strike_sum(s, 0) == 0,
        s[k - 1] is None ==> strike_sum(s, k) == strike_sum(s, k - 1),
        s[k - 1] is Some ==> strike_sum(s, k) == strike_sum(s, k - 1) + s[k - 1].unwrap().1,
{
}

/// The driver that is picked had a fault or a stability below 500, none of
/// those is less stable, and of equally stable ones it is the first. None is
/// picked exactly where all drivers are stable and without faults.
pub proof fn shakiest_driver_is_picked(d: Seq<(u16, u16, u16, u16, u32)>, k: int)
    requires
        0 <= k <= d.len(),
    ensures
        match shakiest(d, k) {
            Some(i) => {
                &&& 0 <= i < k
                &&& d[i].4 > 0 || d[i].3 < 500
                &&& forall|j: int|
                    0 <= j < k && ((#[trigger] d[j]).4 > 0 || d[j].3 < 500) ==> d[i].3 <= d[j].3
                &&& forall|j: int|
                    0 <= j < i && ((#[trigger] d[j]).4 > 0 || d[j].3 < 500) ==> d[i].3 < d[j].3
            },
            None => forall|j: int|
                0 <= j < k ==> (#[trigger] d[j]).4 == 0 && d[j].3 >= 500,
        },
    decreases k,
{
    if k > 0 {
        shakiest_driver_is_picked(d, k - 1);
    }
}

} // verus!
