//! The choices of the sampler that need no arithmetic on fractions: which
//! logits are replaced, which tokens are penalised, and which tokens make up
//! the nucleus. Numbers with a fraction are IEEE 754 bit patterns.
use vstd::prelude::*;

use crate::config::{is_positive, SamplingConfig};
use crate::topk::{higher, key_of, nan, order_key};

verus! {

broadcast use vstd::seq_lib::group_seq_properties;

/// 100.0
pub const LOGIT_MAX: u32 = 0x42C8_0000;

/// -100.0
pub const LOGIT_MIN: u32 = 0xC2C8_0000;

/// 1.0
pub const ONE: u32 = 0x3F80_0000;

/// Whether a bit pattern is a finite number.
pub open spec fn is_finite(bits: u32) -> bool {
    bits % 0x8000_0000 < 0x7F80_0000
}

pub fn finite(bits: u32) -> (r: bool)
    ensures
        r == is_finite(bits),
{
    bits % 0x8000_0000 < 0x7F80_0000
}

/// A logit in range: the lowest one in place of what is no finite number.
pub open spec fn sane(bits: u32) -> u32 {
    if !is_finite(bits) {
        LOGIT_MIN
    } else if higher(bits, LOGIT_MAX) {
        LOGIT_MAX
    } else if higher(LOGIT_MIN, bits) {
        LOGIT_MIN
    } else {
        bits
    }
}

/// Puts a logit in range.
pub fn sanitize_logit(bits: u32) -> (r: u32)
    ensures
        r == sane(bits),
{
    if !finite(bits) {
        LOGIT_MIN
    } else if key_of(bits) > key_of(LOGIT_MAX) {
        LOGIT_MAX
    } else if key_of(LOGIT_MIN) > key_of(bits) {
        LOGIT_MIN
    } else {
        bits
    }
}

/// Every logit ends up between the bounds, and one between them stays.
pub proof fn sane_logits_are_bounded(bits: u32)
    ensures
        is_finite(sane(bits)),
        order_key(LOGIT_MIN) <= order_key(sane(bits)) <= order_key(LOGIT_MAX),
        is_finite(bits) && order_key(LOGIT_MIN) <= order_key(bits) <= order_key(LOGIT_MAX) ==> sane(
            bits,
        ) == bits,
{
}

// ---------------------------------------------------------------------
// Repetition
// ---------------------------------------------------------------------

/// The tokens from `from` on that the vocabulary has.
pub open spec fn known_from(tokens: Seq<u32>, vocab: int, from: int) -> Seq<u32>
    decreases tokens.len() - from,
{
    if from >= tokens.len() {
        Seq::empty()
    } else if tokens[from] < vocab {
        seq![tokens[from]] + known_from(tokens, vocab, from + 1)
    } else {
        known_from(tokens, vocab, from + 1)
    }
}

/// The tokens to penalise: those of the last ones in the window that the
/// vocabulary has, one by one; none where the penalty is neutral.
pub open spec fn penalised_tokens(recent: Seq<u32>, cfg: SamplingConfig, vocab: int) -> Seq<u32> {
    if cfg.rep_penalty == ONE {
        Seq::empty()
    } else {
        known_from(
            recent,
            vocab,
            if recent.len() <= cfg.rep_window {
                0
            } else {
                recent.len() - cfg.rep_window
            },
        )
    }
}

pub fn penalised(recent: &[u32], cfg: &SamplingConfig, vocab: usize) -> (r: Vec<u32>)
    ensures
        r@ == penalised_tokens(recent@, *cfg, vocab as int),
{
    let mut out: Vec<u32> = Vec::new();
    if cfg.rep_penalty == ONE {
        return out;
    }
    let window: usize = cfg.penalty_window(recent.len());
    let start: usize = recent.len() - window;
    let mut i: usize = start;
    while i < recent.len()
        invariant
            start <= i <= recent@.len(),
            out@ + known_from(recent@, vocab as int, i as int) == known_from(
                recent@,
                vocab as int,
                start as int,
            ),
        decreases recent@.len() - i,
    {
        let t: u32 = recent[i];
        if (t as usize) < vocab {
            out.push(t);
        }
        i = i + 1;
        assert(out@ + known_from(recent@, vocab as int, i as int) =~= known_from(
            recent@,
            vocab as int,
            start as int,
        ));
    }
    assert(out@ =~= penalised_tokens(recent@, *cfg, vocab as int));
    out
}

// ---------------------------------------------------------------------
// The nucleus
// ---------------------------------------------------------------------

/// Whether a probability beats the best one so far.
pub open spec fn beats(p: Seq<u32>, j: int, best: Option<int>) -> bool {
    match best {
        Some(b) => higher(p[j], p[b]),
        None => is_positive(p[j]),
    }
}

/// Of the first `k` tokens, the one with the highest probability above zero
/// among those that are not taken, the first of equal ones.
pub open spec fn best_left(p: Seq<u32>, taken: Seq<u32>, k: int) -> Option<int>
    decreases k,
{
    if k <= 0 {
        None
    } else {
        let best = best_left(p, taken, k - 1);
        if !taken.contains((k - 1) as u32) && beats(p, k - 1, best) {
            Some(k - 1)
        } else {
            best
        }
    }
}

/// The tokens taken one by one, the best one left each time, until `limit` are
/// taken or none is left.
pub open spec fn picks(p: Seq<u32>, taken: Seq<u32>, limit: int) -> Seq<u32>
    decreases limit - taken.len(),
{
    if taken.len() >= limit {
        taken
    } else {
        match best_left(p, taken, p.len() as int) {
            Some(b) => picks(p, taken.push(b as u32), limit),
            None => taken,
        }
    }
}

/// The best one left is left, above zero, no lower than any other that is
/// left, and higher than each that is left before it.
pub proof fn best_left_is_highest(p: Seq<u32>, taken: Seq<u32>, k: int)
    requires
        0 <= k <= p.len() <= u32::MAX,
    ensures
        match best_left(p, taken, k) {
            Some(b) => {
                &&& 0 <= b < k
                &&& !taken.contains(b as u32)
                &&& is_positive(p[b])
                &&& forall|j: int|
                    0 <= j < k && !taken.contains(j as u32) ==> !higher(#[trigger] p[j], p[b])
                &&& forall|j: int|
                    0 <= j < b && !taken.contains(j as u32) && is_positive(#[trigger] p[j])
                        ==> higher(p[b], p[j])
            },
            None => forall|j: int|
                0 <= j < k && !taken.contains(j as u32) ==> !is_positive(#[trigger] p[j]),
        },
    decreases k,
{
    if k > 0 {
        best_left_is_highest(p, taken, k - 1);
        let j = k - 1;
        match best_left(p, taken, k) {
            Some(b) => {
                assert forall|i: int| 0 <= i < k && !taken.contains(i as u32) implies !higher(
                    #[trigger] p[i],
                    p[b],
                ) by {
                    if i < j {
                        match best_left(p, taken, j) {
                            Some(c) => {
                                assert(!higher(p[i], p[c]));
                            },
                            None => {
                                assert(!is_positive(p[i]));
                            },
                        }
                    }
                }
            },
            None => {},
        }
    }
}

fn contains(v: &Vec<u32>, t: u32) -> (r: bool)
    ensures
        r == v@.contains(t),
{
    let mut i: usize = 0;
    while i < v.len()
        invariant
            i <= v@.len(),
            forall|j: int| 0 <= j < i ==> #[trigger] v@[j] != t,
        decreases v@.len() - i,
    {
        if v[i] == t {
            return true;
        }
        i = i + 1;
    }
    false
}

fn find_best(p: &[u32], taken: &Vec<u32>) -> (r: Option<usize>)
    requires
        p@.len() <= u32::MAX,
    ensures
        match (r, best_left(p@, taken@, p@.len() as int)) {
            (Some(a), Some(b)) => a == b,
            (None, None) => true,
            _ => false,
        },
        r matches Some(a) ==> a < p@.len(),
{
    let mut best: Option<usize> = None;
    let mut k: usize = 0;
    while k < p.len()
        invariant
            k <= p@.len() <= u32::MAX,
            best matches Some(a) ==> a < k,
            match (best, best_left(p@, taken@, k as int)) {
                (Some(a), Some(b)) => a == b,
                (None, None) => true,
                _ => false,
            },
        decreases p@.len() - k,
    {
        let wins: bool = match best {
            Some(a) => !nan(p[k]) && !nan(p[a]) && key_of(p[k]) > key_of(p[a]),
            None => 0 < p[k] && p[k] <= 0x7F80_0000,
        };
        if wins && !contains(taken, k as u32) {
            best = Some(k);
        }
        k = k + 1;
    }
    best
}

/// The tokens that the nucleus is drawn from, from the most probable one down.
pub fn nucleus(p: &[u32], limit: usize) -> (r: Vec<u32>)
    requires
        p@.len() <= u32::MAX,
    ensures
        r@ == picks(p@, Seq::empty(), limit as int),
{
    let mut taken: Vec<u32> = Vec::new();
    while taken.len() < limit
        invariant
            p@.len() <= u32::MAX,
            picks(p@, taken@, limit as int) == picks(p@, Seq::empty(), limit as int),
            taken@.len() <= limit,
        ensures
            taken@ == picks(p@, Seq::empty(), limit as int),
        decreases limit - taken@.len(),
    {
        match find_best(p, &taken) {
            Some(b) => {
                taken.push(b as u32);
            },
            None => {
                break;
            },
        }
    }
    taken
}

/// What may stand in a list of picks: tokens above zero, none twice, none
/// higher than one before it, and nothing that is left out higher than one
/// that is in.
pub open spec fn is_nucleus(p: Seq<u32>, t: Seq<u32>) -> bool {
    &&& forall|i: int| 0 <= i < t.len() ==> #[trigger] t[i] < p.len() && is_positive(p[t[i] as int])
    &&& forall|i: int, j: int|
        0 <= i < j < t.len() ==> #[trigger] t[i] != #[trigger] t[j] && !higher(
            p[t[j] as int],
            p[t[i] as int],
        )
    &&& forall|i: int, j: int|
        0 <= i < t.len() && 0 <= j < p.len() && !t.contains(j as u32) ==> !higher(
            #[trigger] p[j],
            p[(#[trigger] t[i]) as int],
        )
}

proof fn lemma_picks(p: Seq<u32>, taken: Seq<u32>, limit: int)
    requires
        p.len() <= u32::MAX,
        is_nucleus(p, taken),
        taken.len() <= limit,
    ensures
        is_nucleus(p, picks(p, taken, limit)),
        picks(p, taken, limit).len() <= limit,
        picks(p, taken, limit).len() < limit ==> forall|j: int|
            0 <= j < p.len() && !picks(p, taken, limit).contains(j as u32) ==> !is_positive(
                #[trigger] p[j],
            ),
    decreases limit - taken.len(),
{
    best_left_is_highest(p, taken, p.len() as int);
    if taken.len() < limit {
        match best_left(p, taken, p.len() as int) {
            Some(b) => {
                let next = taken.push(b as u32);
                assert(next[taken.len() as int] == b as u32);
                assert forall|i: int, j: int|
                    0 <= i < next.len() && 0 <= j < p.len() && !next.contains(
                        j as u32,
                    ) implies !higher(#[trigger] p[j], p[(#[trigger] next[i]) as int]) by {
                    assert(!taken.contains(j as u32)) by {
                        if taken.contains(j as u32) {
                            let q = choose|q: int| 0 <= q < taken.len() && taken[q] == j as u32;
                            assert(next[q] == j as u32);
                        }
                    }
                    if i < taken.len() {
                        assert(next[i] == taken[i]);
                    }
                }
                assert forall|i: int, j: int| 0 <= i < j < next.len() implies #[trigger] next[i]
                    != #[trigger] next[j] && !higher(p[next[j] as int], p[next[i] as int]) by {
                    assert(next[i] == taken[i]);
                    if j < taken.len() {
                        assert(next[j] == taken[j]);
                    } else {
                        assert(taken.contains(taken[i]));
                        assert(!higher(p[b], p[taken[i] as int]));
                    }
                }
                lemma_picks(p, next, limit);
            },
            None => {},
        }
    }
}

/// The nucleus holds the most probable tokens in falling order, none twice;
/// and where it is shorter than the limit, it holds all of them.
pub proof fn nucleus_is_most_probable(p: Seq<u32>, limit: int)
    requires
        p.len() <= u32::MAX,
        0 <= limit,
    ensures
        is_nucleus(p, picks(p, Seq::empty(), limit)),
        picks(p, Seq::empty(), limit).len() <= limit,
        picks(p, Seq::empty(), limit).len() < limit ==> forall|j: int|
            0 <= j < p.len() && !picks(p, Seq::empty(), limit).contains(j as u32) ==> !is_positive(
                #[trigger] p[j],
            ),
{
    lemma_picks(p, Seq::empty(), limit);
}

// ---------------------------------------------------------------------
// What the choices mean
// ---------------------------------------------------------------------

/// A logit in range: what is no finite number becomes -100, a number above 100
/// becomes 100, one below -100 becomes -100, and every other one stays.
pub proof fn logits_are_clamped(bits: u32)
    ensures
        !(bits % 0x8000_0000 < 0x7F80_0000) ==> sane(bits) == 0xC2C8_0000,
        bits % 0x8000_0000 < 0x7F80_0000 && order_key(bits) > order_key(0x42C8_0000) ==> sane(bits)
            == 0x42C8_0000,
        bits % 0x8000_0000 < 0x7F80_0000 && order_key(bits) < order_key(0xC2C8_0000) ==> sane(bits)
            == 0xC2C8_0000,
        bits % 0x8000_0000 < 0x7F80_0000 && order_key(0xC2C8_0000) <= order_key(bits) <= order_key(
            0x42C8_0000,
        ) ==> sane(bits) == bits,
        is_positive(bits) <==> higher(bits, 0),
{
}

proof fn lemma_known_is_filter(tokens: Seq<u32>, vocab: int, from: int)
    requires
        0 <= from <= tokens.len(),
    ensures
        known_from(tokens, vocab, from) == tokens.subrange(from, tokens.len() as int).filter(
            |t: u32| t < vocab,
        ),
    decreases tokens.len() - from,
{
    let keep = |t: u32| t < vocab;
    let part = tokens.subrange(from, tokens.len() as int);
    if from < tokens.len() {
        lemma_known_is_filter(tokens, vocab, from + 1);
        let rest = tokens.subrange(from + 1, tokens.len() as int);
        let one = seq![tokens[from]];
        assert(part =~= one + rest);
        Seq::filter_distributes_over_add(one, rest, keep);
        reveal(Seq::filter);
        assert(one.drop_last() =~= Seq::<u32>::empty());
        assert(Seq::<u32>::empty().filter(keep) =~= Seq::<u32>::empty());
        assert(one.filter(keep) =~= if keep(tokens[from]) {
            one
        } else {
            Seq::empty()
        });
        assert(known_from(tokens, vocab, from) =~= part.filter(keep));
    } else {
        reveal(Seq::filter);
        assert(part =~= Seq::<u32>::empty());
        assert(known_from(tokens, vocab, from) =~= part.filter(keep));
    }
}

/// The tokens that are penalised are the last ones of the window, in order and
/// as often as they stand there, but for those that the vocabulary lacks; a
/// penalty of 1.0 penalises none.
pub proof fn recent_tokens_are_penalised(recent: Seq<u32>, cfg: SamplingConfig, vocab: int)
    ensures
        cfg.rep_penalty == 0x3F80_0000 ==> penalised_tokens(recent, cfg, vocab).len() == 0,
        cfg.rep_penalty != 0x3F80_0000 && recent.len() <= cfg.rep_window ==> penalised_tokens(
            recent,
            cfg,
            vocab,
        ) == recent.filter(|t: u32| t < vocab),
        cfg.rep_penalty != 0x3F80_0000 && recent.len() > cfg.rep_window ==> penalised_tokens(
            recent,
            cfg,
            vocab,
        ) == recent.subrange(recent.len() - cfg.rep_window, recent.len() as int).filter(
            |t: u32| t < vocab,
        ),
{
    if recent.len() <= cfg.rep_window {
        lemma_known_is_filter(recent, vocab, 0);
        assert(recent.subrange(0, recent.len() as int) =~= recent);
    } else {
        lemma_known_is_filter(recent, vocab, recent.len() - cfg.rep_window);
    }
}

/// The nucleus: at most `limit` tokens of the vocabulary with a probability
/// above zero, none twice, from the most probable down; what is left out is
/// not more probable than what is in; of equally probable tokens the first go
/// first; and fewer than `limit` only where no token above zero is left out.
#[verifier::rlimit(40)]
pub proof fn nucleus_takes_the_best(p: Seq<u32>, limit: int)
    requires
        p.len() <= u32::MAX,
        0 <= limit,
    ensures
        ({
            let t = picks(p, Seq::empty(), limit);
            &&& t.len() <= limit
            &&& forall|i: int| 0 <= i < t.len() ==> #[trigger] t[i] < p.len() && higher(p[t[i] as int], 0)
            &&& forall|i: int, j: int|
                0 <= i < j < t.len() ==> #[trigger] t[i] != #[trigger] t[j] && order_key(p[t[i] as int])
                    >= order_key(p[t[j] as int])
            &&& forall|i: int, j: int|
                0 <= i < t.len() && 0 <= j < p.len() && higher(#[trigger] p[j], 0) && !t.contains(j as u32)
                    ==> order_key(p[(#[trigger] t[i]) as int]) >= order_key(p[j])
            &&& t.len() < limit ==> forall|j: int|
                0 <= j < p.len() && higher(#[trigger] p[j], 0) ==> t.contains(j as u32)
        }),
        forall|i: int, j: int|
            0 <= i < j < picks(p, Seq::empty(), limit).len() && order_key(
                p[(#[trigger] picks(p, Seq::empty(), limit)[i]) as int],
            ) == order_key(p[(#[trigger] picks(p, Seq::empty(), limit)[j]) as int]) ==> picks(
                p,
                Seq::empty(),
                limit,
            )[i] < picks(p, Seq::empty(), limit)[j],
{
    nucleus_is_most_probable(p, limit);
    let t = picks(p, Seq::empty(), limit);
    assert forall|i: int, j: int| 0 <= i < j < t.len() implies #[trigger] t[i] != #[trigger] t[j]
        && order_key(p[t[i] as int]) >= order_key(p[t[j] as int]) by {
        assert(is_positive(p[t[i] as int]) && is_positive(p[t[j] as int]));
    }
    assert forall|i: int, j: int|
        0 <= i < t.len() && 0 <= j < p.len() && higher(#[trigger] p[j], 0) && !t.contains(j as u32) implies order_key(
        p[(#[trigger] t[i]) as int],
    ) >= order_key(p[j]) by {
        assert(is_positive(p[t[i] as int]));
        assert(!higher(p[j], p[t[i] as int]));
    }
    lemma_ties(p, Seq::empty(), limit);
}

/// Whether equally probable tokens stand in the order of the vocabulary, and
/// none that is left out comes before one that is in.
spec fn ties_in_order(p: Seq<u32>, t: Seq<u32>) -> bool {
    &&& forall|i: int, j: int|
        0 <= i < j < t.len() && order_key(p[(#[trigger] t[i]) as int]) == order_key(
            p[(#[trigger] t[j]) as int],
        ) ==> t[i] < t[j]
    &&& forall|i: int, j: int|
        0 <= i < t.len() && 0 <= j < p.len() && is_positive(#[trigger] p[j]) && !t.contains(j as u32)
            && order_key(p[(#[trigger] t[i]) as int]) == order_key(p[j]) ==> t[i] < j
    &&& forall|i: int| 0 <= i < t.len() ==> #[trigger] t[i] < p.len() && is_positive(p[t[i] as int])
}

#[verifier::rlimit(40)]
proof fn lemma_ties(p: Seq<u32>, taken: Seq<u32>, limit: int)
    requires
        p.len() <= u32::MAX,
        ties_in_order(p, taken),
    ensures
        ties_in_order(p, picks(p, taken, limit)),
    decreases limit - taken.len(),
{
    if taken.len() < limit {
        best_left_is_highest(p, taken, p.len() as int);
        match best_left(p, taken, p.len() as int) {
            Some(b) => {
                let more = taken.push(b as u32);
                assert forall|i: int, j: int|
                    0 <= i < j < more.len() && order_key(p[(#[trigger] more[i]) as int])
                        == order_key(p[(#[trigger] more[j]) as int]) implies more[i] < more[j] by {
                    if j == taken.len() {
                        assert(more[i] == taken[i]);
                        assert(is_positive(p[b]));
                    } else {
                        assert(more[i] == taken[i] && more[j] == taken[j]);
                    }
                }
                assert forall|i: int, j: int|
                    0 <= i < more.len() && 0 <= j < p.len() && is_positive(#[trigger] p[j]) && !more.contains(
                        j as u32,
                    ) && order_key(p[(#[trigger] more[i]) as int]) == order_key(p[j]) implies more[i] < j by {
                    if taken.contains(j as u32) {
                        let k = choose|k: int| 0 <= k < taken.len() && taken[k] == j as u32;
                        assert(more[k] == j as u32);
                    }
                    assert(more[taken.len() as int] == b as u32);
                    if i < taken.len() {
                        assert(more[i] == taken[i]);
                    } else if j < b {
                        assert(higher(p[b], p[j]));
                    } else if j == b {
                        assert(more.contains(j as u32));
                    }
                }
                assert forall|i: int| 0 <= i < more.len() implies #[trigger] more[i] < p.len()
                    && is_positive(p[more[i] as int]) by {
                    if i < taken.len() {
                        assert(more[i] == taken[i]);
                    }
                }
                lemma_ties(p, more, limit);
            },
            None => {},
        }
    }
}

} // verus!
