//! Frustration signals per app, which steer what gets improved first.
use vstd::prelude::*;

verus! {

broadcast use vstd::seq_lib::group_seq_properties;

pub const FRICTION_RAGE_CLICK: u16 = 10;

pub const FRICTION_QUICK_CLOSE: u16 = 20;

pub const FRICTION_BACKSPACE_SPAM: u16 = 5;

/// Score above which an app counts as frustrating.
pub const FRICTION_THRESHOLD: u16 = 15;

/// All scores fall by one after this long.
pub const FRICTION_DECAY_MS: u64 = 60_000;

/// Apps tracked at a time.
pub const FRICTION_SLOTS: usize = 8;

/// Scores of up to eight apps, by key hash. A slot with score 0 is free.
pub struct FrictionTracker {
    pub scores: [(u32, u16); 8],
    pub last_decay_ms: u64,
}

/// The milliseconds from `then` to `now`, 0 where the clock went back.
pub open spec fn elapsed(now: u64, then: u64) -> int {
    if now > then {
        now - then
    } else {
        0
    }
}

/// The first slot at or behind `i` that holds the app with a score.
pub open spec fn scored_slot(s: Seq<(u32, u16)>, h: u32, i: int) -> Option<int>
    decreases s.len() - i,
{
    if i >= s.len() {
        None
    } else if s[i].0 == h && s[i].1 > 0 {
        Some(i)
    } else {
        scored_slot(s, h, i + 1)
    }
}

/// The first free slot at or behind `i`.
pub open spec fn free_slot(s: Seq<(u32, u16)>, i: int) -> Option<int>
    decreases s.len() - i,
{
    if i >= s.len() {
        None
    } else if s[i].1 == 0 {
        Some(i)
    } else {
        free_slot(s, i + 1)
    }
}

/// The first of the lowest scores among the first `k` slots.
pub open spec fn lowest_slot(s: Seq<(u32, u16)>, k: int) -> int
    decreases k,
{
    if k <= 1 {
        0
    } else {
        let before = lowest_slot(s, k - 1);
        if s[k - 1].1 < s[before].1 {
            k - 1
        } else {
            before
        }
    }
}

pub open spec fn sat16(a: u16, b: u16) -> u16 {
    if a + b > u16::MAX {
        u16::MAX
    } else {
        (a + b) as u16
    }
}

/// The slots after a signal: the app's score grows, or the app takes a free
/// slot, or it takes the slot with the lowest score.
pub open spec fn signalled(s: Seq<(u32, u16)>, h: u32, weight: u16) -> Seq<(u32, u16)> {
    match scored_slot(s, h, 0) {
        Some(i) => s.update(i, (h, sat16(s[i].1, weight))),
        None => match free_slot(s, 0) {
            Some(i) => s.update(i, (h, weight)),
            None => s.update(lowest_slot(s, s.len() as int), (h, weight)),
        },
    }
}

/// The highest score above the threshold among the first `k` slots; of equal
/// ones the first.
pub open spec fn worst_slot(s: Seq<(u32, u16)>, k: int) -> Option<int>
    decreases k,
{
    if k <= 0 {
        None
    } else {
        let before = worst_slot(s, k - 1);
        if s[k - 1].1 <= FRICTION_THRESHOLD {
            before
        } else {
            match before {
                Some(i) => if s[k - 1].1 > s[i].1 {
                    Some(k - 1)
                } else {
                    before
                },
                None => Some(k - 1),
            }
        }
    }
}

/// The score of the first slot at or behind `i` that names the app.
pub open spec fn score_from(s: Seq<(u32, u16)>, h: u32, i: int) -> u16
    decreases s.len() - i,
{
    if i >= s.len() {
        0
    } else if s[i].0 == h {
        s[i].1
    } else {
        score_from(s, h, i + 1)
    }
}

/// Scores after one decay.
pub open spec fn decayed(s: Seq<(u32, u16)>) -> Seq<(u32, u16)> {
    s.map_values(
        |e: (u32, u16)|
            (
                e.0,
                if e.1 > 0 {
                    (e.1 - 1) as u16
                } else {
                    0u16
                },
            ),
    )
}

proof fn lemma_scored_slot(s: Seq<(u32, u16)>, h: u32, i: int)
    requires
        0 <= i,
    ensures
        match scored_slot(s, h, i) {
            Some(k) => i <= k < s.len() && s[k].0 == h && s[k].1 > 0 && (forall|j: int|
                i <= j < k ==> !((#[trigger] s[j]).0 == h && s[j].1 > 0)),
            None => forall|j: int| i <= j < s.len() ==> !((#[trigger] s[j]).0 == h && s[j].1 > 0),
        },
    decreases s.len() - i,
{
    if i < s.len() && !(s[i].0 == h && s[i].1 > 0) {
        lemma_scored_slot(s, h, i + 1);
    }
}

proof fn lemma_free_slot(s: Seq<(u32, u16)>, i: int)
    requires
        0 <= i,
    ensures
        match free_slot(s, i) {
            Some(k) => i <= k < s.len() && s[k].1 == 0 && (forall|j: int|
                i <= j < k ==> (#[trigger] s[j]).1 > 0),
            None => forall|j: int| i <= j < s.len() ==> (#[trigger] s[j]).1 > 0,
        },
    decreases s.len() - i,
{
    if i < s.len() && s[i].1 != 0 {
        lemma_free_slot(s, i + 1);
    }
}

proof fn lemma_lowest_slot(s: Seq<(u32, u16)>, k: int)
    requires
        0 < k <= s.len(),
    ensures
        0 <= lowest_slot(s, k) < k,
        forall|j: int| 0 <= j < k ==> (#[trigger] s[j]).1 >= s[lowest_slot(s, k)].1,
    decreases k,
{
    if k > 1 {
        lemma_lowest_slot(s, k - 1);
    }
}

proof fn lemma_score_from(s: Seq<(u32, u16)>, h: u32, i: int, k: int)
    requires
        0 <= i <= k < s.len(),
        s[k].0 == h,
        forall|j: int| i <= j < k ==> (#[trigger] s[j]).0 != h,
    ensures
        score_from(s, h, i) == s[k].1,
    decreases k - i,
{
    if i < k {
        lemma_score_from(s, h, i + 1, k);
    }
}

/// Of the slots that name one app, only the first can hold a score.
pub open spec fn ordered(s: Seq<(u32, u16)>) -> bool {
    forall|i: int, j: int|
        0 <= i < j < s.len() && (#[trigger] s[i]).0 == (#[trigger] s[j]).0 ==> s[j].1 == 0
}

/// After a signal, the app's score is the old one plus the weight, or the
/// weight where the app was not tracked. Signals keep the slots ordered.
pub proof fn signal_shows(s: Seq<(u32, u16)>, h: u32, weight: u16)
    requires
        s.len() == FRICTION_SLOTS,
        ordered(s),
    ensures
        score_from(signalled(s, h, weight), h, 0) == (match scored_slot(s, h, 0) {
            Some(i) => sat16(s[i].1, weight),
            None => weight,
        }),
        ordered(signalled(s, h, weight)),
{
    lemma_scored_slot(s, h, 0);
    lemma_free_slot(s, 0);
    lemma_lowest_slot(s, s.len() as int);
    let out = signalled(s, h, weight);
    let k = match scored_slot(s, h, 0) {
        Some(i) => i,
        None => match free_slot(s, 0) {
            Some(i) => i,
            None => lowest_slot(s, s.len() as int),
        },
    };
    assert(out[k].0 == h);
    assert forall|j: int| 0 <= j < k implies (#[trigger] out[j]).0 != h by {
        assert(out[j] == s[j]);
        if s[j].0 == h {
            assert(s[j].1 == 0 || scored_slot(s, h, 0) is Some);
            if scored_slot(s, h, 0) is Some {
                assert(s[k].0 == h && s[k].1 > 0);
            }
        }
    }
    lemma_score_from(out, h, 0, k);
    assert forall|i: int, j: int|
        0 <= i < j < out.len() && (#[trigger] out[i]).0 == (#[trigger] out[j]).0 implies out[j].1
        == 0 by {
        if j == k {
            assert(out[i].0 != h);
        } else {
            assert(out[j] == s[j]);
            if i == k {
                assert(s[j].0 == h);
            } else {
                assert(out[i] == s[i]);
            }
        }
    }
}

/// The first slot that names the app decides on its score.
proof fn lemma_score_cases(s: Seq<(u32, u16)>, h: u32, i: int)
    requires
        0 <= i,
    ensures
        (score_from(s, h, i) == 0 && forall|j: int| i <= j < s.len() ==> (#[trigger] s[j]).0 != h)
            || exists|k: int|
            i <= k < s.len() && (#[trigger] s[k]).0 == h && score_from(s, h, i) == s[k].1 && forall|
                j: int,
            |
                i <= j < k ==> (#[trigger] s[j]).0 != h,
    decreases s.len() - i,
{
    if i < s.len() && s[i].0 != h {
        lemma_score_cases(s, h, i + 1);
        if score_from(s, h, i + 1) != 0 || exists|j: int|
            i < j < s.len() && (#[trigger] s[j]).0 == h {
            let k = choose|k: int|
                i + 1 <= k < s.len() && (#[trigger] s[k]).0 == h && score_from(s, h, i + 1)
                    == s[k].1 && forall|j: int| i + 1 <= j < k ==> (#[trigger] s[j]).0 != h;
            assert(s[k].0 == h);
        }
    } else if i < s.len() {
        assert(s[i].0 == h);
    }
}

/// A signal leaves the score of every other app alone, except that an app that
/// is new to a full tracker drops one with the lowest score.
pub proof fn signal_spares_others(s: Seq<(u32, u16)>, h: u32, weight: u16, other: u32)
    requires
        s.len() == FRICTION_SLOTS,
        ordered(s),
        other != h,
    ensures
        ({
            let low = lowest_slot(s, s.len() as int);
            let full = scored_slot(s, h, 0) is None && free_slot(s, 0) is None;
            let score = score_from(signalled(s, h, weight), other, 0);
            if full && s[low].0 == other {
                score == 0 && forall|j: int|
                    0 <= j < s.len() ==> (#[trigger] s[j]).1 >= score_from(s, other, 0)
            } else {
                score == score_from(s, other, 0)
            }
        }),
{
    lemma_scored_slot(s, h, 0);
    lemma_free_slot(s, 0);
    lemma_lowest_slot(s, s.len() as int);
    let out = signalled(s, h, weight);
    let k = match scored_slot(s, h, 0) {
        Some(i) => i,
        None => match free_slot(s, 0) {
            Some(i) => i,
            None => lowest_slot(s, s.len() as int),
        },
    };
    assert(out[k].0 == h);
    assert(forall|j: int| 0 <= j < s.len() && j != k ==> out[j] == s[j]);
    lemma_score_cases(s, other, 0);
    lemma_score_cases(out, other, 0);
    if forall|j: int| 0 <= j < s.len() ==> (#[trigger] s[j]).0 != other {
        assert forall|j: int| 0 <= j < out.len() implies (#[trigger] out[j]).0 != other by {
            assert(s[j].0 != other);
        }
    } else {
        let f = choose|f: int|
            0 <= f < s.len() && (#[trigger] s[f]).0 == other && score_from(s, other, 0) == s[f].1
                && forall|j: int| 0 <= j < f ==> (#[trigger] s[j]).0 != other;
        if f != k {
            assert forall|j: int| 0 <= j < f implies (#[trigger] out[j]).0 != other by {
                assert(j != k ==> out[j] == s[j]);
            }
            lemma_score_from(out, other, 0, f);
            if free_slot(s, 0) is None && s[k].0 == other && k != f {
                assert(s[k].1 > 0);
            }
        } else {
            assert forall|j: int| 0 <= j < out.len() && (#[trigger] out[j]).0
                == other implies out[j].1 == 0 by {
                assert(out[j] == s[j]);
                assert(s[j].0 == other && s[f].0 == other);
            }
        }
    }
}

/// A fresh tracker is ordered, and decay keeps it so.
pub proof fn decay_keeps_order(s: Seq<(u32, u16)>)
    ensures
        ordered(Seq::new(8, |i: int| (0u32, 0u16))),
        ordered(s) ==> ordered(decayed(s)),
{
    if ordered(s) {
        let out = decayed(s);
        assert forall|i: int, j: int|
            0 <= i < j < out.len() && (#[trigger] out[i]).0 == (
            #[trigger] out[j]).0 implies out[j].1 == 0 by {
            assert(s[i].0 == s[j].0);
        }
    }
}

proof fn lemma_worst_slot(s: Seq<(u32, u16)>, k: int)
    requires
        0 <= k <= s.len(),
    ensures
        worst_slot(s, k) matches Some(i) ==> 0 <= i < k && s[i].1 > FRICTION_THRESHOLD && forall|
            j: int,
        |
            0 <= j < k ==> (#[trigger] s[j]).1 <= s[i].1,
        worst_slot(s, k) is None ==> forall|j: int|
            0 <= j < k ==> (#[trigger] s[j]).1 <= FRICTION_THRESHOLD,
    decreases k,
{
    if k > 0 {
        lemma_worst_slot(s, k - 1);
    }
}

/// The app that is reported as most frustrating has a score above the
/// threshold, and no tracked score is higher. No app is reported exactly when
/// no score is above the threshold.
pub proof fn most_frustrated_is_worst(s: Seq<(u32, u16)>)
    requires
        ordered(s),
    ensures
        match worst_slot(s, s.len() as int) {
            Some(i) => {
                &&& 0 <= i < s.len()
                &&& score_from(s, s[i].0, 0) == s[i].1
                &&& s[i].1 > FRICTION_THRESHOLD
                &&& forall|j: int| 0 <= j < s.len() ==> (#[trigger] s[j]).1 <= s[i].1
            },
            None => forall|j: int| 0 <= j < s.len() ==> (#[trigger] s[j]).1 <= FRICTION_THRESHOLD,
        },
{
    lemma_worst_slot(s, s.len() as int);
    match worst_slot(s, s.len() as int) {
        Some(i) => {
            assert forall|j: int| 0 <= j < i implies (#[trigger] s[j]).0 != s[i].0 by {
                assert(s[i].1 > 0);
            }
            lemma_score_from(s, s[i].0, 0, i);
        },
        None => {},
    }
}

impl FrictionTracker {
    pub fn new() -> (t: Self)
        ensures
            t.scores@ == Seq::new(8, |i: int| (0u32, 0u16)),
            t.last_decay_ms == 0,
    {
        let t = FrictionTracker { scores: [(0u32, 0u16);8], last_decay_ms: 0 };
        assert(t.scores@ =~= Seq::new(8, |i: int| (0u32, 0u16)));
        t
    }

    /// Records a signal for an app.
    pub fn record_signal(&mut self, key_hash: u32, weight: u16)
        ensures
            final(self).scores@ == signalled(old(self).scores@, key_hash, weight),
            final(self).last_decay_ms == old(self).last_decay_ms,
    {
        let ghost s = self.scores@;
        let mut i: usize = 0;
        while i < 8
            invariant
                i <= 8,
                s == self.scores@,
                s == old(self).scores@,
                self.last_decay_ms == old(self).last_decay_ms,
                scored_slot(s, key_hash, 0) == scored_slot(s, key_hash, i as int),
            decreases 8 - i,
        {
            if self.scores[i].0 == key_hash && self.scores[i].1 > 0 {
                let score: u16 = self.scores[i].1.saturating_add(weight);
                self.scores[i] = (key_hash, score);
                return;
            }
            i = i + 1;
        }
        i = 0;
        while i < 8
            invariant
                i <= 8,
                s == self.scores@,
                s == old(self).scores@,
                self.last_decay_ms == old(self).last_decay_ms,
                scored_slot(s, key_hash, 0) is None,
                free_slot(s, 0) == free_slot(s, i as int),
            decreases 8 - i,
        {
            if self.scores[i].1 == 0 {
                self.scores[i] = (key_hash, weight);
                return;
            }
            i = i + 1;
        }
        let mut low: usize = 0;
        i = 1;
        while i < 8
            invariant
                1 <= i <= 8,
                low < 8,
                s == self.scores@,
                low == lowest_slot(s, i as int),
            decreases 8 - i,
        {
            if self.scores[i].1 < self.scores[low].1 {
                low = i;
            }
            i = i + 1;
        }
        self.scores[low] = (key_hash, weight);
    }

    /// The app with the highest score, if any exceeds the threshold.
    pub fn most_frustrated(&self) -> (r: Option<u32>)
        ensures
            r == (match worst_slot(self.scores@, 8) {
                Some(i) => Some(self.scores@[i].0),
                None => None,
            }),
    {
        let mut best: Option<usize> = None;
        let mut i: usize = 0;
        while i < 8
            invariant
                i <= 8,
                match best {
                    Some(b) => b < i && worst_slot(self.scores@, i as int) == Some(b as int),
                    None => worst_slot(self.scores@, i as int) is None,
                },
            decreases 8 - i,
        {
            let score: u16 = self.scores[i].1;
            if score > FRICTION_THRESHOLD {
                let better: bool = match best {
                    Some(b) => score > self.scores[b].1,
                    None => true,
                };
                if better {
                    best = Some(i);
                }
            }
            i = i + 1;
        }
        match best {
            Some(b) => Some(self.scores[b].0),
            None => None,
        }
    }

    /// Lowers all scores by one where the interval is over.
    pub fn decay(&mut self, now_ms: u64)
        ensures
            elapsed(now_ms, old(self).last_decay_ms) < FRICTION_DECAY_MS ==> *final(self) == *old(
                self,
            ),
            elapsed(now_ms, old(self).last_decay_ms) >= FRICTION_DECAY_MS
                ==> final(self).last_decay_ms == now_ms && final(self).scores@ == decayed(
                old(self).scores@,
            ),
    {
        if now_ms.saturating_sub(self.last_decay_ms) < FRICTION_DECAY_MS {
            return;
        }
        self.last_decay_ms = now_ms;
        let ghost s = self.scores@;
        let mut i: usize = 0;
        while i < 8
            invariant
                i <= 8,
                s == old(self).scores@,
                s.len() == 8,
                self.last_decay_ms == now_ms,
                forall|k: int| 0 <= k < i ==> self.scores@[k] == decayed(s)[k],
                forall|k: int| i <= k < 8 ==> self.scores@[k] == s[k],
            decreases 8 - i,
        {
            let e: (u32, u16) = self.scores[i];
            self.scores[i] = (e.0, e.1.saturating_sub(1));
            i = i + 1;
        }
        assert(self.scores@ =~= decayed(s));
    }

    /// The score of an app.
    pub fn score_for(&self, key_hash: u32) -> (r: u16)
        ensures
            r == score_from(self.scores@, key_hash, 0),
    {
        let mut i: usize = 0;
        while i < 8
            invariant
                i <= 8,
                score_from(self.scores@, key_hash, 0) == score_from(
                    self.scores@,
                    key_hash,
                    i as int,
                ),
            decreases 8 - i,
        {
            if self.scores[i].0 == key_hash {
                return self.scores[i].1;
            }
            i = i + 1;
        }
        0
    }
}

// ---------------------------------------------------------------------
// What scores mean, in numbers
// ---------------------------------------------------------------------

/// How much a signal adds: the weight, up to the largest number.
pub proof fn weights_add_up(a: u16, b: u16)
    ensures
        sat16(a, b) == if a + b <= 65_535 {
            a + b
        } else {
            65_535
        },
{
}

/// The score of an app is that of the first slot that names it, and nothing
/// where none does.
pub proof fn scores_are_found(s: Seq<(u32, u16)>, h: u32, k: int)
    ensures
        0 <= k < s.len() && s[k].0 == h && (forall|j: int| 0 <= j < k ==> (#[trigger] s[j]).0 != h)
            ==> score_from(s, h, 0) == s[k].1,
        (forall|j: int| 0 <= j < s.len() ==> (#[trigger] s[j]).0 != h) ==> score_from(s, h, 0) == 0,
{
    lemma_score_cases(s, h, 0);
    if 0 <= k < s.len() && s[k].0 == h && (forall|j: int| 0 <= j < k ==> (#[trigger] s[j]).0 != h) {
        lemma_score_from(s, h, 0, k);
    }
}

/// A signal raises the score of its app by the weight.
pub proof fn signals_raise_the_score(s: Seq<(u32, u16)>, h: u32, weight: u16)
    requires
        s.len() == 8,
        ordered(s),
    ensures
        ({
            let sum = score_from(s, h, 0) + weight;
            score_from(signalled(s, h, weight), h, 0) == if sum <= 65_535 {
                sum
            } else {
                65_535
            }
        }),
{
    signal_shows(s, h, weight);
    lemma_scored_slot(s, h, 0);
    lemma_score_cases(s, h, 0);
    match scored_slot(s, h, 0) {
        Some(i) => {
            assert forall|j: int| 0 <= j < i implies (#[trigger] s[j]).0 != h by {
                if s[j].0 == h {
                    assert(s[i].1 == 0);
                }
            }
            lemma_score_from(s, h, 0, i);
        },
        None => {},
    }
}

/// The app that is reported has a score above fifteen, no other has a higher
/// one, and none is reported exactly where no score is above fifteen.
pub proof fn fifteen_is_not_frustrating(s: Seq<(u32, u16)>)
    requires
        ordered(s),
    ensures
        match worst_slot(s, s.len() as int) {
            Some(i) => 0 <= i < s.len() && s[i].1 > 15 && score_from(s, s[i].0, 0) == s[i].1
                && forall|h: u32| #[trigger] score_from(s, h, 0) <= s[i].1,
            None => forall|h: u32| #[trigger] score_from(s, h, 0) <= 15,
        },
{
    most_frustrated_is_worst(s);
    assert forall|h: u32| match worst_slot(s, s.len() as int) {
        Some(i) => #[trigger] score_from(s, h, 0) <= s[i].1,
        None => score_from(s, h, 0) <= 15,
    } by {
        lemma_score_cases(s, h, 0);
    }
}

/// Decay takes one from every score above zero and keeps the apps.
pub proof fn decay_takes_one(s: Seq<(u32, u16)>, h: u32)
    ensures
        decayed(s).len() == s.len(),
        score_from(decayed(s), h, 0) == if score_from(s, h, 0) > 0 {
            score_from(s, h, 0) - 1
        } else {
            0
        },
{
    lemma_decayed_from(s, h, 0);
}

proof fn lemma_decayed_from(s: Seq<(u32, u16)>, h: u32, i: int)
    requires
        0 <= i,
    ensures
        score_from(decayed(s), h, i) == if score_from(s, h, i) > 0 {
            score_from(s, h, i) - 1
        } else {
            0
        },
    decreases s.len() - i,
{
    if i < s.len() {
        assert(decayed(s)[i].0 == s[i].0);
        if s[i].0 != h {
            lemma_decayed_from(s, h, i + 1);
        }
    }
}

/// Time that passed, 0 where the clock went back.
pub proof fn time_passes(now: u64, then: u64)
    ensures
        now >= then ==> elapsed(now, then) == now - then,
        now < then ==> elapsed(now, then) == 0,
{
}

} // verus!
