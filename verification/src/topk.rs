//! The highest logits. Logits are IEEE 754 bit patterns; two of them compare
//! like the integers that `order_key` gives.
use vstd::prelude::*;

verus! {

/// Whether a bit pattern is no number.
pub open spec fn is_nan(bits: u32) -> bool {
    bits % 0x8000_0000 > 0x7F80_0000
}

/// The place of a number in the order of all numbers. Both zeros have one
/// place.
pub open spec fn order_key(bits: u32) -> int {
    if bits < 0x8000_0000 {
        bits as int
    } else {
        0x8000_0000 - bits
    }
}

/// A logit and its token.
pub open spec fn entry_key(e: (u32, u32)) -> int {
    order_key(e.0)
}

pub fn key_of(bits: u32) -> (r: i64)
    ensures
        r == order_key(bits),
{
    if bits < 0x8000_0000 {
        bits as i64
    } else {
        0x8000_0000 - bits as i64
    }
}

pub fn nan(bits: u32) -> (r: bool)
    ensures
        r == is_nan(bits),
{
    bits % 0x8000_0000 > 0x7F80_0000
}

/// Whether `a` is a higher number than `b`.
pub open spec fn higher(a: u32, b: u32) -> bool {
    !is_nan(a) && !is_nan(b) && order_key(a) > order_key(b)
}

// ---------------------------------------------------------------------
// Greedy choice
// ---------------------------------------------------------------------

/// Of the first `k` logits, the first that no later one exceeds.
pub open spec fn greedy(s: Seq<u32>, k: int) -> int
    decreases k,
{
    if k <= 1 {
        0
    } else {
        let before = greedy(s, k - 1);
        if higher(s[k - 1], s[before]) {
            k - 1
        } else {
            before
        }
    }
}

/// Without logits that are no number, the greedy choice is a highest one, and
/// the first of them.
pub proof fn greedy_is_highest(s: Seq<u32>, k: int)
    requires
        0 < k <= s.len(),
        forall|i: int| 0 <= i < s.len() ==> !is_nan(#[trigger] s[i]),
    ensures
        0 <= greedy(s, k) < k,
        forall|i: int| 0 <= i < k ==> order_key(#[trigger] s[i]) <= order_key(s[greedy(s, k)]),
        forall|i: int|
            0 <= i < greedy(s, k) ==> order_key(#[trigger] s[i]) < order_key(s[greedy(s, k)]),
    decreases k,
{
    if k > 1 {
        greedy_is_highest(s, k - 1);
    }
}

proof fn lemma_greedy_range(s: Seq<u32>, k: int)
    requires
        0 < k,
    ensures
        0 <= greedy(s, k) < k,
    decreases k,
{
    if k > 1 {
        lemma_greedy_range(s, k - 1);
    }
}

/// The token with the highest logit, the first of equal ones.
pub fn argmax(logits: &[u32]) -> (r: Option<u32>)
    requires
        logits@.len() <= 0x1_0000_0000,
    ensures
        match r {
            Some(i) => logits@.len() > 0 && i == greedy(logits@, logits@.len() as int),
            None => logits@.len() == 0,
        },
        r matches Some(i) ==> (!is_nan(logits@[0]) ==> forall|j: int|
            0 <= j < logits@.len() && !is_nan(#[trigger] logits@[j]) ==> order_key(logits@[j])
                <= order_key(logits@[i as int])),
{
    if logits.len() == 0 {
        return None;
    }
    proof {
        greedy_passes_over_no_numbers(logits@, logits@.len() as int);
    }
    let mut best: usize = 0;
    let mut i: usize = 1;
    while i < logits.len()
        invariant
            1 <= i <= logits.len() <= 0x1_0000_0000,
            best < i,
            best == greedy(logits@, i as int),
        decreases logits.len() - i,
    {
        let v: u32 = logits[i];
        let b: u32 = logits[best];
        if !nan(v) && !nan(b) && key_of(v) > key_of(b) {
            best = i;
        }
        i = i + 1;
    }
    Some(best as u32)
}

// ---------------------------------------------------------------------
// A heap with the lowest logit at its root
// ---------------------------------------------------------------------

/// The parent of a place.
pub open spec fn up(c: int) -> int {
    (c - 1) / 2
}

/// A place is not below its parent.
pub open spec fn above_parent(h: Seq<(u32, u32)>, c: int) -> bool {
    entry_key(h[up(c)]) <= entry_key(h[c])
}

/// All parents at or behind `from` are not above their children.
pub open spec fn heap_from(h: Seq<(u32, u32)>, from: int) -> bool {
    forall|c: int| 1 <= c < h.len() && up(c) >= from ==> #[trigger] above_parent(h, c)
}

/// The same entries in another order.
pub open spec fn same_entries(a: Seq<(u32, u32)>, b: Seq<(u32, u32)>) -> bool {
    &&& a.len() == b.len()
    &&& forall|e: (u32, u32)| #[trigger] a.contains(e) <==> b.contains(e)
    &&& a.no_duplicates() ==> b.no_duplicates()
}

proof fn lemma_swap(a: Seq<(u32, u32)>, i: int, j: int)
    requires
        0 <= i < a.len(),
        0 <= j < a.len(),
        i != j,
    ensures
        same_entries(a, a.update(i, a[j]).update(j, a[i])),
{
    let b = a.update(i, a[j]).update(j, a[i]);
    let turn = |k: int|
        if k == i {
            j
        } else if k == j {
            i
        } else {
            k
        };
    assert(forall|k: int| 0 <= k < a.len() ==> #[trigger] b[k] == a[turn(k)]);
    assert forall|e: (u32, u32)| #[trigger] a.contains(e) <==> b.contains(e) by {
        if a.contains(e) {
            let k = choose|k: int| 0 <= k < a.len() && a[k] == e;
            assert(b[turn(k)] == e);
        }
        if b.contains(e) {
            let k = choose|k: int| 0 <= k < b.len() && b[k] == e;
            assert(a[turn(k)] == e);
        }
    }
    if a.no_duplicates() {
        assert forall|x: int, y: int| 0 <= x < b.len() && 0 <= y < b.len() && x != y implies b[x]
            != b[y] by {
            assert(a[turn(x)] != a[turn(y)]);
        }
    }
}

proof fn lemma_root_is_lowest(h: Seq<(u32, u32)>, i: int)
    requires
        heap_from(h, 0),
        0 <= i < h.len(),
    ensures
        entry_key(h[0]) <= entry_key(h[i]),
    decreases i,
{
    if i > 0 {
        assert(above_parent(h, i));
        lemma_root_is_lowest(h, up(i));
    }
}

/// Moves the entry at `at` down until none of its children is lower.
fn sift_down_min(h: &mut Vec<(u32, u32)>, at: usize)
    requires
        at < old(h)@.len(),
        heap_from(old(h)@, at + 1),
    ensures
        heap_from(final(h)@, at as int),
        same_entries(old(h)@, final(h)@),
{
    let ghost first = h@;
    let mut j: usize = at;
    let n: usize = h.len();
    while j < n / 2
        invariant
            n == h@.len(),
            at <= j < n,
            same_entries(first, h@),
            forall|c: int|
                1 <= c < n && up(c) >= at && up(c) != j ==> #[trigger] above_parent(h@, c),
            forall|c: int|
                1 <= c < n && #[trigger] up(c) == j && j > at ==> entry_key(h@[up(j as int)])
                    <= entry_key(h@[c]),
        ensures
            n == h@.len(),
            same_entries(first, h@),
            heap_from(h@, at as int),
        decreases n - j,
    {
        let l: usize = 2 * j + 1;
        let mut low: usize = j;
        if key_of(h[l].0) < key_of(h[low].0) {
            low = l;
        }
        if l + 1 < n && key_of(h[l + 1].0) < key_of(h[low].0) {
            low = l + 1;
        }
        assert(up(l as int) == j && up(l + 1) == j);
        if low == j {
            assert forall|c: int| 1 <= c < n && up(c) >= at implies #[trigger] above_parent(h@, c) by {
                if up(c) == j {
                    assert(c == l || c == l + 1);
                }
            }
            break;
        }
        let ghost before = h@;
        let a: (u32, u32) = h[j];
        let b: (u32, u32) = h[low];
        h.set(j, b);
        h.set(low, a);
        proof {
            lemma_swap(before, j as int, low as int);
            assert(h@ =~= before.update(j as int, b).update(low as int, a));
            assert(same_entries(first, h@)) by {
                assert forall|e: (u32, u32)| #[trigger] first.contains(e) <==> h@.contains(e) by {
                    assert(first.contains(e) <==> before.contains(e));
                    assert(before.contains(e) <==> h@.contains(e));
                }
            }
            assert forall|c: int|
                1 <= c < n && up(c) >= at && up(c) != low implies #[trigger] above_parent(h@, c) by {
                if c == low || up(c) == j {
                    assert(up(c) == j);
                    assert(c == l || c == l + 1);
                } else if c == j {
                    assert(up(low as int) == j);
                    assert(above_parent(before, c));
                    assert(entry_key(before[up(j as int)]) <= entry_key(before[low as int]));
                } else {
                    assert(above_parent(before, c));
                }
            }
            assert forall|c: int|
                1 <= c < n && #[trigger] up(c) == low implies entry_key(h@[up(low as int)])
                <= entry_key(h@[c]) by {
                assert(above_parent(before, c));
                assert(c != j && c != low);
            }
        }
        j = low;
    }
    if j >= n / 2 {
        assert forall|c: int| 1 <= c < n && up(c) >= at implies #[trigger] above_parent(h@, c) by {
            assert(up(c) < n / 2);
        }
    }
}

/// Makes a heap of the entries.
fn heapify_min(h: &mut Vec<(u32, u32)>)
    ensures
        heap_from(final(h)@, 0),
        same_entries(old(h)@, final(h)@),
{
    let ghost first = h@;
    let mut i: usize = h.len() / 2;
    while i > 0
        invariant
            i <= h@.len() / 2,
            heap_from(h@, i as int),
            same_entries(first, h@),
        decreases i,
    {
        i = i - 1;
        let ghost before = h@;
        sift_down_min(h, i);
        assert(same_entries(first, h@)) by {
            assert forall|e: (u32, u32)| #[trigger] first.contains(e) <==> h@.contains(e) by {
                assert(first.contains(e) <==> before.contains(e));
                assert(before.contains(e) <==> h@.contains(e));
            }
        }
    }
}

/// Takes the lowest entry out of a heap.
fn pop_min(h: &mut Vec<(u32, u32)>) -> (r: (u32, u32))
    requires
        old(h)@.len() > 0,
        heap_from(old(h)@, 0),
        old(h)@.no_duplicates(),
    ensures
        r == old(h)@[0],
        final(h)@.len() == old(h)@.len() - 1,
        heap_from(final(h)@, 0),
        final(h)@.no_duplicates(),
        forall|e: (u32, u32)| #[trigger] final(h)@.contains(e) <==> (old(h)@.contains(e) && e != r),
        forall|i: int| 0 <= i < old(h)@.len() ==> entry_key(r) <= entry_key(#[trigger] old(h)@[i]),
{
    let ghost first = h@;
    proof {
        assert forall|i: int| 0 <= i < first.len() implies entry_key(first[0]) <= entry_key(
            #[trigger] first[i],
        ) by {
            lemma_root_is_lowest(first, i);
        }
    }
    let n: usize = h.len();
    let top: (u32, u32) = h[0];
    let last: (u32, u32) = h[n - 1];
    h.pop();
    if n > 1 {
        h.set(0, last);
        let ghost moved = h@;
        proof {
            assert(moved.len() == n - 1);
            assert(moved[0] == first[n - 1]);
            assert(forall|k: int| 1 <= k < n - 1 ==> #[trigger] moved[k] == first[k]);
            assert forall|c: int| 1 <= c < moved.len() && up(c) >= 1 implies #[trigger] above_parent(
                moved,
                c,
            ) by {
                assert(above_parent(first, c));
            }
            lemma_moved(first, moved);
        }
        sift_down_min(h, 0);
        assert forall|e: (u32, u32)| #[trigger] h@.contains(e) <==> (first.contains(e) && e
            != top) by {
            assert(moved.contains(e) <==> h@.contains(e));
        }
    } else {
        assert forall|e: (u32, u32)| #[trigger] h@.contains(e) <==> (first.contains(e) && e
            != top) by {
            if first.contains(e) {
                let k = choose|k: int| 0 <= k < first.len() && first[k] == e;
            }
        }
    }
    top
}

/// Putting the last entry in place of the first leaves out exactly the first.
proof fn lemma_moved(first: Seq<(u32, u32)>, moved: Seq<(u32, u32)>)
    requires
        first.len() > 1,
        first.no_duplicates(),
        moved.len() == first.len() - 1,
        moved[0] == first.last(),
        forall|k: int| 1 <= k < moved.len() ==> #[trigger] moved[k] == first[k],
    ensures
        moved.no_duplicates(),
        forall|e: (u32, u32)| #[trigger] moved.contains(e) <==> (first.contains(e) && e
            != first[0]),
{
    let n = first.len() as int;
    assert forall|e: (u32, u32)| #[trigger] moved.contains(e) <==> (first.contains(e) && e
        != first[0]) by {
        if moved.contains(e) {
            let k = choose|k: int| 0 <= k < moved.len() && moved[k] == e;
            if k == 0 {
                assert(first[n - 1] == e);
            } else {
                assert(first[k] == e);
            }
        }
        if first.contains(e) && e != first[0] {
            let k = choose|k: int| 0 <= k < first.len() && first[k] == e;
            if k == n - 1 {
                assert(moved[0] == e);
            } else {
                assert(moved[k] == e);
            }
        }
    }
    assert forall|x: int, y: int| 0 <= x < moved.len() && 0 <= y < moved.len() && x
        != y implies moved[x] != moved[y] by {
        let a = if x == 0 {
            n - 1
        } else {
            x
        };
        let b = if y == 0 {
            n - 1
        } else {
            y
        };
        assert(first[a] != first[b]);
    }
}

// ---------------------------------------------------------------------
// The highest k
// ---------------------------------------------------------------------

/// How many of the first `n` logits are numbers.
pub open spec fn count_real(s: Seq<u32>, n: int) -> int
    decreases n,
{
    if n <= 0 {
        0
    } else {
        count_real(s, n - 1) + (if is_nan(s[n - 1]) {
            0int
        } else {
            1
        })
    }
}

/// The entry of a token.
pub open spec fn entry_at(s: Seq<u32>, i: int) -> (u32, u32) {
    (s[i], i as u32)
}

/// Whether an entry is that of a number among the first `n`.
pub open spec fn from_first(s: Seq<u32>, n: int, e: (u32, u32)) -> bool {
    e.1 < n && e.0 == s[e.1 as int] && !is_nan(e.0)
}

/// `r` holds the `k` highest logits that are numbers, or all where there are
/// fewer, each once and with its token, the highest first. Which of equal
/// logits are kept is left open.
pub open spec fn is_top(r: Seq<(u32, u32)>, s: Seq<u32>, k: int) -> bool {
    &&& r.len() == (if count_real(s, s.len() as int) < k {
        count_real(s, s.len() as int)
    } else {
        k
    })
    &&& r.no_duplicates()
    &&& forall|i: int| 0 <= i < r.len() ==> from_first(s, s.len() as int, #[trigger] r[i])
    &&& forall|i: int, j: int|
        0 <= i < j < r.len() ==> entry_key(#[trigger] r[i]) >= entry_key(#[trigger] r[j])
    &&& forall|i: int, j: int|
        0 <= i < s.len() && !is_nan(s[i]) && !r.contains(#[trigger] entry_at(s, i)) && 0 <= j
            < r.len() ==> order_key(s[i]) <= entry_key(#[trigger] r[j])
}

/// The state of the scan over the first `n` logits.
spec fn scanned(h: Seq<(u32, u32)>, s: Seq<u32>, n: int, k: int) -> bool {
    &&& h.no_duplicates()
    &&& h.len() <= k
    &&& forall|i: int| 0 <= i < h.len() ==> from_first(s, n, #[trigger] h[i])
    &&& h.len() < k ==> h.len() == count_real(s, n) && (forall|i: int|
        0 <= i < n && !is_nan(s[i]) ==> h.contains(#[trigger] entry_at(s, i)))
    &&& h.len() == k ==> count_real(s, n) >= k && (forall|i: int, j: int|
        0 <= i < n && !is_nan(s[i]) && !h.contains(#[trigger] entry_at(s, i)) && 0 <= j < h.len()
            ==> order_key(s[i]) <= entry_key(#[trigger] h[j]))
}

/// Another order of the entries does not change what the scan says of them.
proof fn lemma_scanned_same(
    a: Seq<(u32, u32)>,
    b: Seq<(u32, u32)>,
    s: Seq<u32>,
    n: int,
    k: int,
)
    requires
        scanned(a, s, n, k),
        same_entries(a, b),
    ensures
        scanned(b, s, n, k),
{
    assert forall|i: int| 0 <= i < b.len() implies from_first(s, n, #[trigger] b[i]) by {
        assert(b.contains(b[i]));
        assert(a.contains(b[i]));
        let x = choose|x: int| 0 <= x < a.len() && a[x] == b[i];
        assert(from_first(s, n, a[x]));
    }
    if b.len() < k {
        assert forall|i: int| 0 <= i < n && !is_nan(s[i]) implies b.contains(
            #[trigger] entry_at(s, i),
        ) by {
            assert(a.contains(entry_at(s, i)));
        }
    }
    if b.len() == k {
        assert forall|i: int, j: int|
            0 <= i < n && !is_nan(s[i]) && !b.contains(#[trigger] entry_at(s, i)) && 0 <= j
                < b.len() implies order_key(s[i]) <= entry_key(#[trigger] b[j]) by {
            assert(!a.contains(entry_at(s, i)));
            assert(b.contains(b[j]));
            assert(a.contains(b[j]));
            let x = choose|x: int| 0 <= x < a.len() && a[x] == b[j];
            assert(entry_key(a[x]) == entry_key(b[j]));
        }
    }
}

/// A logit that is no number changes nothing.
proof fn lemma_scan_nan(h: Seq<(u32, u32)>, s: Seq<u32>, n: int, k: int)
    requires
        0 <= n < s.len(),
        scanned(h, s, n, k),
        is_nan(s[n]),
    ensures
        scanned(h, s, n + 1, k),
{
}

/// While there is room, a number is added.
proof fn lemma_scan_push(h: Seq<(u32, u32)>, s: Seq<u32>, n: int, k: int)
    requires
        0 <= n < s.len() <= 0x1_0000_0000,
        h.len() < k,
        scanned(h, s, n, k),
        !is_nan(s[n]),
    ensures
        scanned(h.push(entry_at(s, n)), s, n + 1, k),
{
    let e = entry_at(s, n);
    let g = h.push(e);
    assert forall|i: int| 0 <= i < g.len() implies from_first(s, n + 1, #[trigger] g[i]) by {
        if i < h.len() {
            assert(from_first(s, n, h[i]));
        }
    }
    assert forall|x: int, y: int| 0 <= x < g.len() && 0 <= y < g.len() && x != y implies g[x]
        != g[y] by {
        if x < h.len() {
            assert(from_first(s, n, h[x]));
        }
        if y < h.len() {
            assert(from_first(s, n, h[y]));
        }
    }
    assert forall|i: int| 0 <= i < n + 1 && !is_nan(s[i]) implies g.contains(
        #[trigger] entry_at(s, i),
    ) by {
        if i < n {
            assert(h.contains(entry_at(s, i)));
            let x = choose|x: int| 0 <= x < h.len() && h[x] == entry_at(s, i);
            assert(g[x] == entry_at(s, i));
        } else {
            assert(g[h.len() as int] == e);
        }
    }
}

/// A number that is not above the root stays out.
proof fn lemma_scan_low(h: Seq<(u32, u32)>, s: Seq<u32>, n: int, k: int)
    requires
        0 <= n < s.len() <= 0x1_0000_0000,
        h.len() == k,
        k > 0,
        heap_from(h, 0),
        scanned(h, s, n, k),
        !is_nan(s[n]),
        order_key(s[n]) <= entry_key(h[0]),
    ensures
        scanned(h, s, n + 1, k),
{
    assert forall|i: int| 0 <= i < h.len() implies from_first(s, n + 1, #[trigger] h[i]) by {
        assert(from_first(s, n, h[i]));
    }
    assert forall|i: int, j: int|
        0 <= i < n + 1 && !is_nan(s[i]) && !h.contains(#[trigger] entry_at(s, i)) && 0 <= j
            < h.len() implies order_key(s[i]) <= entry_key(#[trigger] h[j]) by {
        lemma_root_is_lowest(h, j);
    }
}

/// A number above the root takes its place.
proof fn lemma_scan_replace(h: Seq<(u32, u32)>, s: Seq<u32>, n: int, k: int)
    requires
        0 <= n < s.len() <= 0x1_0000_0000,
        h.len() == k,
        k > 0,
        heap_from(h, 0),
        scanned(h, s, n, k),
        !is_nan(s[n]),
        order_key(s[n]) > entry_key(h[0]),
    ensures
        scanned(h.update(0, entry_at(s, n)), s, n + 1, k),
        heap_from(h.update(0, entry_at(s, n)), 1),
{
    let e = entry_at(s, n);
    let g = h.update(0, e);
    assert forall|i: int| 0 <= i < g.len() implies from_first(s, n + 1, #[trigger] g[i]) by {
        if i > 0 {
            assert(from_first(s, n, h[i]));
        }
    }
    assert forall|x: int, y: int| 0 <= x < g.len() && 0 <= y < g.len() && x != y implies g[x]
        != g[y] by {
        if x > 0 {
            assert(from_first(s, n, h[x]));
        }
        if y > 0 {
            assert(from_first(s, n, h[y]));
        }
    }
    assert forall|i: int, j: int|
        0 <= i < n + 1 && !is_nan(s[i]) && !g.contains(#[trigger] entry_at(s, i)) && 0 <= j
            < g.len() implies order_key(s[i]) <= entry_key(#[trigger] g[j]) by {
        assert(g[0] == e);
        assert(i < n);
        lemma_root_is_lowest(h, j);
        if h.contains(entry_at(s, i)) {
            let x = choose|x: int| 0 <= x < h.len() && h[x] == entry_at(s, i);
            if x > 0 {
                assert(g[x] == entry_at(s, i));
            }
        } else {
            assert(order_key(s[i]) <= entry_key(h[0]));
        }
    }
    assert forall|c: int| 1 <= c < g.len() && up(c) >= 1 implies #[trigger] above_parent(g, c) by {
        assert(above_parent(h, c));
    }
}

/// Takes all entries out of a heap, the lowest first.
fn drain_ascending(h: Vec<(u32, u32)>) -> (out: Vec<(u32, u32)>)
    requires
        heap_from(h@, 0),
        h@.no_duplicates(),
    ensures
        same_entries(h@, out@),
        out@.no_duplicates(),
        forall|i: int, j: int|
            0 <= i < j < out@.len() ==> entry_key(#[trigger] out@[i]) <= entry_key(
                #[trigger] out@[j],
            ),
{
    let ghost all = h@;
    let mut heap = h;
    let mut out: Vec<(u32, u32)> = Vec::new();
    while heap.len() > 0
        invariant
            heap_from(heap@, 0),
            heap@.no_duplicates(),
            out@.no_duplicates(),
            out@.len() + heap@.len() == all.len(),
            forall|e: (u32, u32)| #[trigger]
                all.contains(e) <==> (out@.contains(e) || heap@.contains(e)),
            forall|i: int, j: int|
                0 <= i < out@.len() && 0 <= j < heap@.len() ==> entry_key(#[trigger] out@[i])
                    <= entry_key(#[trigger] heap@[j]) && out@[i] != heap@[j],
            forall|i: int, j: int|
                0 <= i < j < out@.len() ==> entry_key(#[trigger] out@[i]) <= entry_key(
                    #[trigger] out@[j],
                ),
        decreases heap.len(),
    {
        let ghost before = heap@;
        let ghost done = out@;
        let e = pop_min(&mut heap);
        out.push(e);
        proof {
            assert forall|i: int, j: int|
                0 <= i < out@.len() && 0 <= j < heap@.len() implies entry_key(#[trigger] out@[i])
                <= entry_key(#[trigger] heap@[j]) && out@[i] != heap@[j] by {
                assert(heap@.contains(heap@[j]));
                assert(before.contains(heap@[j]) && heap@[j] != e);
                let x = choose|x: int| 0 <= x < before.len() && before[x] == heap@[j];
                assert(entry_key(e) <= entry_key(before[x]));
                if i < done.len() {
                    assert(out@[i] == done[i]);
                }
            }
            assert forall|i: int, j: int| 0 <= i < j < out@.len() implies entry_key(
                #[trigger] out@[i],
            ) <= entry_key(#[trigger] out@[j]) by {
                if j == done.len() {
                    assert(out@[i] == done[i]);
                    assert(before[0] == e);
                }
            }
            assert forall|x: int, y: int|
                0 <= x < out@.len() && 0 <= y < out@.len() && x != y implies out@[x] != out@[y] by {
                if x == done.len() {
                    assert(out@[y] == done[y] && before[0] == e);
                } else if y == done.len() {
                    assert(out@[x] == done[x] && before[0] == e);
                }
            }
            assert forall|f: (u32, u32)| #[trigger] all.contains(f) <==> (out@.contains(f)
                || heap@.contains(f)) by {
                assert(all.contains(f) <==> (done.contains(f) || before.contains(f)));
                if done.contains(f) {
                    let x = choose|x: int| 0 <= x < done.len() && done[x] == f;
                    assert(out@[x] == f);
                }
                if f == e {
                    assert(out@[done.len() as int] == f);
                    assert(before.contains(before[0]));
                }
                if out@.contains(f) {
                    let x = choose|x: int| 0 <= x < out@.len() && out@[x] == f;
                    if x < done.len() {
                        assert(done[x] == f);
                    } else {
                        assert(f == e);
                    }
                }
            }
        }
    }
    assert forall|e: (u32, u32)| #[trigger] all.contains(e) <==> out@.contains(e) by {}
    out
}

/// The entries in reverse order.
fn reversed(v: &Vec<(u32, u32)>) -> (out: Vec<(u32, u32)>)
    ensures
        out@ == v@.reverse(),
{
    let mut out: Vec<(u32, u32)> = Vec::new();
    let mut i: usize = v.len();
    while i > 0
        invariant
            i <= v.len(),
            out@.len() == v@.len() - i,
            forall|k: int| 0 <= k < out@.len() ==> out@[k] == v@[v@.len() - 1 - k],
        decreases i,
    {
        i = i - 1;
        out.push(v[i]);
    }
    assert(out@ =~= v@.reverse());
    out
}

/// The `k` highest logits with their tokens, the highest first. Bit patterns
/// that are no number are passed over.
pub fn top_k(logits: &[u32], k: usize) -> (r: Vec<(u32, u32)>)
    requires
        logits@.len() <= 0x1_0000_0000,
    ensures
        is_top(r@, logits@, k as int),
{
    let ghost s = logits@;
    let mut heap: Vec<(u32, u32)> = Vec::new();
    if k == 0 {
        proof {
            lemma_count_range(s, s.len() as int);
        }
        return heap;
    }
    let mut i: usize = 0;
    assert(scanned(heap@, s, 0, k as int));
    while i < logits.len()
        invariant
            s == logits@,
            i <= logits.len() <= 0x1_0000_0000,
            k > 0,
            scanned(heap@, s, i as int, k as int),
            heap@.len() == k ==> heap_from(heap@, 0),
        decreases logits.len() - i,
    {
        let v: u32 = logits[i];
        if nan(v) {
            proof {
                lemma_scan_nan(heap@, s, i as int, k as int);
            }
        } else if heap.len() < k {
            proof {
                lemma_scan_push(heap@, s, i as int, k as int);
            }
            heap.push((v, i as u32));
            if heap.len() == k {
                let ghost before = heap@;
                heapify_min(&mut heap);
                proof {
                    lemma_scanned_same(before, heap@, s, i + 1, k as int);
                }
            }
        } else if key_of(v) > key_of(heap[0].0) {
            proof {
                lemma_scan_replace(heap@, s, i as int, k as int);
            }
            heap.set(0, (v, i as u32));
            let ghost before = heap@;
            sift_down_min(&mut heap, 0);
            proof {
                lemma_scanned_same(before, heap@, s, i + 1, k as int);
            }
        } else {
            proof {
                lemma_scan_low(heap@, s, i as int, k as int);
            }
        }
        i = i + 1;
    }
    if heap.len() < k {
        let ghost before = heap@;
        heapify_min(&mut heap);
        proof {
            lemma_scanned_same(before, heap@, s, s.len() as int, k as int);
        }
    }
    let ghost all = heap@;
    let up = drain_ascending(heap);
    let r = reversed(&up);
    proof {
        lemma_scanned_same(all, up@, s, s.len() as int, k as int);
        let n = r@.len() as int;
        assert(forall|x: int| 0 <= x < n ==> #[trigger] r@[x] == up@[n - 1 - x]);
        assert forall|x: int, y: int| 0 <= x < n && 0 <= y < n && x != y implies r@[x] != r@[y] by {
            assert(up@[n - 1 - x] != up@[n - 1 - y]);
        }
        assert forall|x: int| 0 <= x < n implies from_first(s, s.len() as int, #[trigger] r@[x]) by {
            assert(from_first(s, s.len() as int, up@[n - 1 - x]));
        }
        assert forall|x: int, y: int|
            0 <= x < s.len() && !is_nan(s[x]) && !r@.contains(#[trigger] entry_at(s, x)) && 0 <= y
                < n implies order_key(s[x]) <= entry_key(#[trigger] r@[y]) by {
            if up@.contains(entry_at(s, x)) {
                let z = choose|z: int| 0 <= z < up@.len() && up@[z] == entry_at(s, x);
                assert(r@[n - 1 - z] == entry_at(s, x));
            }
            assert(entry_key(up@[n - 1 - y]) == entry_key(r@[y]));
        }
    }
    r
}

proof fn lemma_count_range(s: Seq<u32>, n: int)
    ensures
        0 <= count_real(s, n),
    decreases n,
{
    if n > 0 {
        lemma_count_range(s, n - 1);
    }
}

/// Where all logits are numbers, the first of the highest has the logit of the
/// greedy choice.
pub proof fn top_agrees_with_greedy(r: Seq<(u32, u32)>, s: Seq<u32>, k: int)
    requires
        is_top(r, s, k),
        0 < k,
        0 < s.len() <= 0x1_0000_0000,
        forall|i: int| 0 <= i < s.len() ==> !is_nan(#[trigger] s[i]),
    ensures
        r.len() > 0,
        entry_key(r[0]) == order_key(s[greedy(s, s.len() as int)]),
{
    let n = s.len() as int;
    lemma_count_all(s, n);
    greedy_is_highest(s, n);
    let g = greedy(s, n);
    assert(from_first(s, n, r[0]));
    assert(order_key(s[r[0].1 as int]) <= order_key(s[g]));
    let e = entry_at(s, g);
    if r.contains(e) {
        let x = choose|x: int| 0 <= x < r.len() && r[x] == e;
        if x > 0 {
            assert(entry_key(r[0]) >= entry_key(r[x]));
        }
    } else {
        assert(order_key(s[g]) <= entry_key(r[0]));
    }
}

proof fn lemma_count_all(s: Seq<u32>, n: int)
    requires
        0 <= n <= s.len(),
        forall|i: int| 0 <= i < s.len() ==> !is_nan(#[trigger] s[i]),
    ensures
        count_real(s, n) == n,
    decreases n,
{
    if n > 0 {
        lemma_count_all(s, n - 1);
    }
}

// ---------------------------------------------------------------------
// Choice without chance
// ---------------------------------------------------------------------

/// Minus infinity.
pub const LOWEST: u32 = 0xFF80_0000;

/// Of the first `k` logits, the first highest one above minus infinity.
pub open spec fn peak(s: Seq<u32>, k: int) -> Option<int>
    decreases k,
{
    if k <= 0 {
        None
    } else {
        let before = peak(s, k - 1);
        let bar = match before {
            Some(i) => s[i],
            None => LOWEST,
        };
        if higher(s[k - 1], bar) {
            Some(k - 1)
        } else {
            before
        }
    }
}

/// The token that is chosen where sampling is switched off: that of the first
/// highest logit, 0 where there is none.
pub fn sample_greedy(logits: &[u32]) -> (r: u32)
    requires
        logits@.len() <= 0x1_0000_0000,
    ensures
        r == (match peak(logits@, logits@.len() as int) {
            Some(i) => i,
            None => 0,
        }),
        (exists|j: int|
            0 <= j < logits@.len() && !is_nan(#[trigger] logits@[j]) && logits@[j] != 0xFF80_0000)
            ==> {
            &&& r < logits@.len()
            &&& !is_nan(logits@[r as int])
            &&& forall|j: int|
                0 <= j < logits@.len() && !is_nan(#[trigger] logits@[j]) ==> order_key(logits@[j])
                    <= order_key(logits@[r as int])
            &&& forall|j: int|
                0 <= j < r && !is_nan(#[trigger] logits@[j]) ==> order_key(logits@[j]) < order_key(
                    logits@[r as int],
                )
        },
{
    proof {
        lemma_peak(logits@, logits@.len() as int);
    }
    let mut best: Option<usize> = None;
    let mut bar: u32 = LOWEST;
    let mut i: usize = 0;
    while i < logits.len()
        invariant
            i <= logits.len() <= 0x1_0000_0000,
            match best {
                Some(b) => b < i && peak(logits@, i as int) == Some(b as int) && bar
                    == logits@[b as int],
                None => peak(logits@, i as int) is None && bar == LOWEST,
            },
        decreases logits.len() - i,
    {
        let v: u32 = logits[i];
        if !nan(v) && !nan(bar) && key_of(v) > key_of(bar) {
            best = Some(i);
            bar = v;
        }
        i = i + 1;
    }
    match best {
        Some(b) => b as u32,
        None => 0,
    }
}

// ---------------------------------------------------------------------
// What the order means
// ---------------------------------------------------------------------

/// The order of bit patterns is that of the numbers: among those without a sign
/// the larger pattern is the higher number, among those with one the smaller,
/// and a sign makes a number lower, except that the two zeros are equal. No
/// number are the patterns with a full exponent and something behind it.
pub proof fn order_is_that_of_the_numbers(a: u32, b: u32)
    ensures
        a < 0x8000_0000 && b < 0x8000_0000 ==> (order_key(a) < order_key(b) <==> a < b),
        a >= 0x8000_0000 && b >= 0x8000_0000 ==> (order_key(a) < order_key(b) <==> b < a),
        a >= 0x8000_0000 && b < 0x8000_0000 ==> order_key(a) <= order_key(b),
        a >= 0x8000_0000 && b < 0x8000_0000 ==> (order_key(a) == order_key(b) <==> a == 0x8000_0000
            && b == 0),
        is_nan(a) <==> (0x7F80_0000 < a < 0x8000_0000 || 0xFF80_0000 < a),
        higher(a, b) <==> !is_nan(a) && !is_nan(b) && order_key(b) < order_key(a),
        LOWEST == 0xFF80_0000,
{
}

proof fn lemma_peak(s: Seq<u32>, k: int)
    requires
        0 <= k <= s.len(),
    ensures
        match peak(s, k) {
            Some(i) => {
                &&& 0 <= i < k
                &&& !is_nan(s[i])
                &&& order_key(s[i]) > order_key(0xFF80_0000)
                &&& forall|j: int| 0 <= j < k && !is_nan(#[trigger] s[j]) ==> order_key(s[j])
                    <= order_key(s[i])
                &&& forall|j: int| 0 <= j < i && !is_nan(#[trigger] s[j]) ==> order_key(s[j])
                    < order_key(s[i])
            },
            None => forall|j: int| 0 <= j < k && !is_nan(#[trigger] s[j]) ==> s[j] == 0xFF80_0000,
        },
    decreases k,
{
    if k > 0 {
        lemma_peak(s, k - 1);
    }
}

/// What is chosen where sampling is switched off: of the logits that are
/// numbers a highest one, the first of them, whatever the signs; and nothing
/// only where none of them is above minus infinity.
pub proof fn peak_is_highest(s: Seq<u32>)
    ensures
        match peak(s, s.len() as int) {
            Some(i) => {
                &&& 0 <= i < s.len()
                &&& !is_nan(s[i])
                &&& forall|j: int| 0 <= j < s.len() && !is_nan(#[trigger] s[j]) ==> order_key(s[j])
                    <= order_key(s[i])
                &&& forall|j: int| 0 <= j < i && !is_nan(#[trigger] s[j]) ==> order_key(s[j])
                    < order_key(s[i])
            },
            None => forall|j: int|
                0 <= j < s.len() && !is_nan(#[trigger] s[j]) ==> s[j] == 0xFF80_0000,
        },
{
    lemma_peak(s, s.len() as int);
}

/// Where every logit is a number and one is above minus infinity, the choice
/// without sampling and the greedy choice are the same.
pub proof fn peak_is_greedy(s: Seq<u32>)
    requires
        forall|i: int| 0 <= i < s.len() ==> !is_nan(#[trigger] s[i]),
        exists|i: int| 0 <= i < s.len() && #[trigger] s[i] != 0xFF80_0000,
    ensures
        peak(s, s.len() as int) == Some(greedy(s, s.len() as int)),
{
    lemma_peak(s, s.len() as int);
    greedy_is_highest(s, s.len() as int);
    let i = choose|i: int| 0 <= i < s.len() && #[trigger] s[i] != 0xFF80_0000;
    assert(!is_nan(s[i]));
    let p = peak(s, s.len() as int)->0;
    let g = greedy(s, s.len() as int);
    if p < g {
        assert(order_key(s[p]) < order_key(s[g]));
    }
    if g < p {
        assert(order_key(s[g]) < order_key(s[p]));
    }
}

/// The greedy choice among logits some of which are no numbers: the first one
/// where that is no number, and else a highest number, the first of them.
pub proof fn greedy_passes_over_no_numbers(s: Seq<u32>, k: int)
    requires
        0 < k <= s.len(),
    ensures
        is_nan(s[0]) ==> greedy(s, k) == 0,
        !is_nan(s[0]) ==> {
            let g = greedy(s, k);
            &&& 0 <= g < k
            &&& !is_nan(s[g])
            &&& forall|j: int| 0 <= j < k && !is_nan(#[trigger] s[j]) ==> order_key(s[j])
                <= order_key(s[g])
            &&& forall|j: int| 0 <= j < g && !is_nan(#[trigger] s[j]) ==> order_key(s[j])
                < order_key(s[g])
        },
    decreases k,
{
    if k > 1 {
        greedy_passes_over_no_numbers(s, k - 1);
    }
}

#[verifier::rlimit(40)]
proof fn lemma_count_is_at_most(r: Seq<(u32, u32)>, s: Seq<u32>, n: int)
    requires
        0 <= n <= s.len() <= 0x1_0000_0000,
        r.no_duplicates(),
        forall|i: int| 0 <= i < r.len() ==> from_first(s, n, #[trigger] r[i]),
        r.len() == count_real(s, n),
    ensures
        forall|i: int| 0 <= i < n && !is_nan(s[i]) ==> r.contains(#[trigger] entry_at(s, i)),
    decreases n,
{
    if n > 0 {
        let e = entry_at(s, n - 1);
        if is_nan(s[n - 1]) {
            assert forall|i: int| 0 <= i < r.len() implies from_first(s, n - 1, #[trigger] r[i]) by {
                assert(from_first(s, n, r[i]));
                if r[i].1 == n - 1 {
                    assert(r[i].0 == s[n - 1]);
                }
            }
            lemma_count_is_at_most(r, s, n - 1);
        } else if r.contains(e) {
            let k = choose|k: int| 0 <= k < r.len() && r[k] == e;
            let less = r.remove(k);
            assert forall|i: int, j: int| 0 <= i < less.len() && 0 <= j < less.len() && i != j implies less[i]
                != less[j] by {
                let a = if i < k { i } else { i + 1 };
                let b = if j < k { j } else { j + 1 };
                assert(less[i] == r[a] && less[j] == r[b]);
            }
            assert forall|i: int| 0 <= i < less.len() implies from_first(s, n - 1, #[trigger] less[i]) by {
                let a = if i < k { i } else { i + 1 };
                assert(less[i] == r[a]);
                assert(from_first(s, n, r[a]));
                if r[a].1 == n - 1 {
                    assert(r[a] == e);
                    assert(r[k] == r[a]);
                }
            }
            lemma_count_is_at_most(less, s, n - 1);
            assert forall|i: int| 0 <= i < n && !is_nan(s[i]) implies r.contains(
                #[trigger] entry_at(s, i),
            ) by {
                if i < n - 1 {
                    assert(less.contains(entry_at(s, i)));
                    let a = choose|a: int| 0 <= a < less.len() && less[a] == entry_at(s, i);
                    assert(r[if a < k { a } else { a + 1 }] == entry_at(s, i));
                }
            }
        } else {
            assert forall|i: int| 0 <= i < r.len() implies from_first(s, n - 1, #[trigger] r[i]) by {
                assert(from_first(s, n, r[i]));
                if r[i].1 == n - 1 {
                    assert(r[i] == e);
                    assert(r.contains(e));
                }
            }
            lemma_at_most_real(r, s, n - 1);
        }
    }
}

proof fn lemma_at_most_real(r: Seq<(u32, u32)>, s: Seq<u32>, n: int)
    requires
        0 <= n <= s.len() <= 0x1_0000_0000,
        r.no_duplicates(),
        forall|i: int| 0 <= i < r.len() ==> from_first(s, n, #[trigger] r[i]),
    ensures
        r.len() <= count_real(s, n),
    decreases n,
{
    if n <= 0 {
        if r.len() > 0 {
            assert(from_first(s, n, r[0]));
        }
    } else {
        let e = entry_at(s, n - 1);
        if r.contains(e) {
            let k = choose|k: int| 0 <= k < r.len() && r[k] == e;
            assert(from_first(s, n, r[k]));
            let less = r.remove(k);
            assert forall|i: int, j: int| 0 <= i < less.len() && 0 <= j < less.len() && i != j implies less[i]
                != less[j] by {
                let a = if i < k { i } else { i + 1 };
                let b = if j < k { j } else { j + 1 };
                assert(less[i] == r[a] && less[j] == r[b]);
            }
            assert forall|i: int| 0 <= i < less.len() implies from_first(s, n - 1, #[trigger] less[i]) by {
                let a = if i < k { i } else { i + 1 };
                assert(less[i] == r[a]);
                assert(from_first(s, n, r[a]));
                if r[a].1 == n - 1 {
                    assert(r[a] == e);
                    assert(r[k] == r[a]);
                }
            }
            lemma_at_most_real(less, s, n - 1);
        } else {
            assert forall|i: int| 0 <= i < r.len() implies from_first(s, n - 1, #[trigger] r[i]) by {
                assert(from_first(s, n, r[i]));
                if r[i].1 == n - 1 {
                    assert(r[i] == e);
                    assert(r.contains(e));
                }
            }
            lemma_at_most_real(r, s, n - 1);
        }
    }
}

/// What the highest logits are: at most `k` of them, fewer only where all
/// numbers are among them; each with its own token, from the highest down; and
/// no number that is left out is above one that is in.
#[verifier::rlimit(40)]
pub proof fn top_holds_the_highest(r: Seq<(u32, u32)>, s: Seq<u32>, k: int)
    requires
        is_top(r, s, k),
        0 <= k,
        s.len() <= 0x1_0000_0000,
    ensures
        r.len() <= k,
        r.len() < k ==> forall|j: int|
            0 <= j < s.len() && !is_nan(#[trigger] s[j]) ==> r.contains((s[j], j as u32)),
        forall|i: int|
            0 <= i < r.len() ==> (#[trigger] r[i]).1 < s.len() && r[i].0 == s[r[i].1 as int]
                && !is_nan(r[i].0),
        forall|i: int, j: int|
            0 <= i < j < r.len() ==> (#[trigger] r[i]).1 != (#[trigger] r[j]).1 && order_key(r[i].0)
                >= order_key(r[j].0),
        forall|i: int, j: int|
            0 <= i < r.len() && 0 <= j < s.len() && !is_nan(#[trigger] s[j]) && !r.contains(
                (s[j], j as u32),
            ) ==> order_key(s[j]) <= order_key((#[trigger] r[i]).0),
{
    lemma_at_most_real(r, s, s.len() as int);
    if r.len() < k {
        lemma_count_is_at_most(r, s, s.len() as int);
        assert forall|j: int| 0 <= j < s.len() && !is_nan(#[trigger] s[j]) implies r.contains(
            (s[j], j as u32),
        ) by {
            assert(r.contains(entry_at(s, j)));
        }
    }
    assert forall|i: int| 0 <= i < r.len() implies (#[trigger] r[i]).1 < s.len() && r[i].0
        == s[r[i].1 as int] && !is_nan(r[i].0) by {
        assert(from_first(s, s.len() as int, r[i]));
    }
    assert forall|i: int, j: int| 0 <= i < j < r.len() implies (#[trigger] r[i]).1
        != (#[trigger] r[j]).1 && order_key(r[i].0) >= order_key(r[j].0) by {
        assert(entry_key(r[i]) >= entry_key(r[j]));
        assert(r[i] != r[j]);
    }
    assert forall|i: int, j: int|
        0 <= i < r.len() && 0 <= j < s.len() && !is_nan(#[trigger] s[j]) && !r.contains(
            (s[j], j as u32),
        ) implies order_key(s[j]) <= order_key((#[trigger] r[i]).0) by {
        assert(!r.contains(entry_at(s, j)));
        assert(order_key(s[j]) <= entry_key(r[i]));
    }
}

} // verus!
