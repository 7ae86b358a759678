//! Text as a sequence of characters: lines, trimming, prefixes and search.
use vstd::prelude::*;
use vstd::string::*;

verus! {

broadcast use vstd::seq_lib::group_seq_properties;

/// The characters of a text.
pub fn to_chars(s: &str) -> (v: Vec<char>)
    ensures
        v@ == s@,
{
    let mut v: Vec<char> = Vec::new();
    let ghost all = s@;
    for c in it: s.chars()
        invariant
            all == s@,
            it.seq() == all,
            v@ == all.subrange(0, it.index()),
    {
        proof {
            let j = it.index();
            assert(all.subrange(0, j + 1) =~= all.subrange(0, j).push(c));
        }
        v.push(c);
    }
    assert(all.subrange(0, all.len() as int) =~= all);
    v
}

/// Appends characters `from .. to` to a text.
pub fn push_chars(out: &mut String, v: &[char], from: usize, to: usize)
    requires
        from <= to <= v.len(),
    ensures
        final(out)@ == old(out)@ + v@.subrange(from as int, to as int),
{
    let ghost before = out@;
    let mut i: usize = from;
    while i < to
        invariant
            from <= i <= to <= v.len(),
            out@ == before + v@.subrange(from as int, i as int),
        decreases to - i,
    {
        out.push(v[i]);
        proof {
            assert(v@.subrange(from as int, i + 1) =~= v@.subrange(from as int, i as int).push(
                v@[i as int],
            ));
            assert(out@ =~= before + v@.subrange(from as int, i + 1));
        }
        i = i + 1;
    }
}

/// Characters `from .. to` as a text.
pub fn chars_to_string(v: &[char], from: usize, to: usize) -> (s: String)
    requires
        from <= to <= v.len(),
    ensures
        s@ == v@.subrange(from as int, to as int),
{
    let mut s = String::new();
    push_chars(&mut s, v, from, to);
    assert(s@ =~= v@.subrange(from as int, to as int));
    s
}

/// Unicode white space.
pub open spec fn is_white(c: char) -> bool {
    let n = c as int;
    0x09 <= n <= 0x0D || n == 0x20 || n == 0x85 || n == 0xA0 || n == 0x1680 || 0x2000 <= n <= 0x200A
        || n == 0x2028 || n == 0x2029 || n == 0x202F || n == 0x205F || n == 0x3000
}

pub fn white(c: char) -> (r: bool)
    ensures
        r == is_white(c),
{
    let n: u32 = c as u32;
    (0x09 <= n && n <= 0x0D) || n == 0x20 || n == 0x85 || n == 0xA0 || n == 0x1680 || (0x2000 <= n
        && n <= 0x200A) || n == 0x2028 || n == 0x2029 || n == 0x202F || n == 0x205F || n == 0x3000
}

/// The first place in `[i, end)` that holds no white space, or `end`.
pub open spec fn skip_white(s: Seq<char>, i: int, end: int) -> int
    decreases end - i,
{
    if i >= end || !is_white(s[i]) {
        i
    } else {
        skip_white(s, i + 1, end)
    }
}

/// The end of what is left of `[from, i)` without trailing white space.
pub open spec fn drop_white(s: Seq<char>, from: int, i: int) -> int
    decreases i - from,
{
    if i <= from || !is_white(s[i - 1]) {
        i
    } else {
        drop_white(s, from, i - 1)
    }
}

/// Without white space at either end.
pub open spec fn trim(s: Seq<char>) -> Seq<char> {
    let from = skip_white(s, 0, s.len() as int);
    s.subrange(from, drop_white(s, from, s.len() as int))
}

/// Without trailing white space.
pub open spec fn trim_end(s: Seq<char>) -> Seq<char> {
    s.subrange(0, drop_white(s, 0, s.len() as int))
}

pub proof fn lemma_skip_white(s: Seq<char>, i: int, end: int)
    requires
        i <= end,
    ensures
        i <= skip_white(s, i, end) <= end,
    decreases end - i,
{
    if i < end && is_white(s[i]) {
        lemma_skip_white(s, i + 1, end);
    }
}

pub proof fn lemma_drop_white(s: Seq<char>, from: int, i: int)
    requires
        from <= i,
    ensures
        from <= drop_white(s, from, i) <= i,
    decreases i - from,
{
    if from < i && is_white(s[i - 1]) {
        lemma_drop_white(s, from, i - 1);
    }
}

/// Trimmed text has no white space at its ends, and trimming it again changes
/// nothing.
pub proof fn trim_is_trimmed(s: Seq<char>)
    ensures
        trim(s).len() > 0 ==> !is_white(trim(s)[0]) && !is_white(trim(s).last()),
        trim(trim(s)) == trim(s),
{
    let n = s.len() as int;
    lemma_skip_white(s, 0, n);
    let from = skip_white(s, 0, n);
    lemma_drop_white(s, from, n);
    lemma_skip_white_stops(s, 0, n);
    lemma_drop_white_stops(s, from, n);
    let t = trim(s);
    if t.len() > 0 {
        let to = drop_white(s, from, n);
        assert(t[0] == s[from]);
        assert(t.last() == s[to - 1]);
        assert(skip_white(t, 0, t.len() as int) == 0);
        assert(drop_white(t, 0, t.len() as int) == t.len());
    }
    assert(trim(t) =~= t);
}

proof fn lemma_skip_white_stops(s: Seq<char>, i: int, end: int)
    requires
        i <= end,
    ensures
        skip_white(s, i, end) < end ==> !is_white(s[skip_white(s, i, end)]),
    decreases end - i,
{
    if i < end && is_white(s[i]) {
        lemma_skip_white_stops(s, i + 1, end);
    }
}

proof fn lemma_drop_white_stops(s: Seq<char>, from: int, i: int)
    requires
        from <= i,
    ensures
        drop_white(s, from, i) > from ==> !is_white(s[drop_white(s, from, i) - 1]),
    decreases i - from,
{
    if from < i && is_white(s[i - 1]) {
        lemma_drop_white_stops(s, from, i - 1);
    }
}

/// Where trimming `[from, to)` starts.
pub fn find_start(v: &[char], from: usize, to: usize) -> (r: usize)
    requires
        from <= to <= v.len(),
    ensures
        r == skip_white(v@, from as int, to as int),
        from <= r <= to,
{
    let mut i: usize = from;
    while i < to && white(v[i])
        invariant
            from <= i <= to <= v.len(),
            skip_white(v@, from as int, to as int) == skip_white(v@, i as int, to as int),
        decreases to - i,
    {
        i = i + 1;
    }
    i
}

/// Where trimming `[from, to)` ends.
pub fn find_end(v: &[char], from: usize, to: usize) -> (r: usize)
    requires
        from <= to <= v.len(),
    ensures
        r == drop_white(v@, from as int, to as int),
        from <= r <= to,
{
    let mut i: usize = to;
    while i > from && white(v[i - 1])
        invariant
            from <= i <= to <= v.len(),
            drop_white(v@, from as int, to as int) == drop_white(v@, from as int, i as int),
        decreases i - from,
    {
        i = i - 1;
    }
    i
}

/// Shifting the place where a range is looked at changes nothing.
pub proof fn lemma_trim_range(s: Seq<char>, from: int, to: int)
    requires
        0 <= from <= to <= s.len(),
    ensures
        ({
            let a = skip_white(s, from, to);
            let b = drop_white(s, a, to);
            &&& from <= a <= b <= to
            &&& trim(s.subrange(from, to)) == s.subrange(a, b)
        }),
{
    let t = s.subrange(from, to);
    lemma_skip_white(s, from, to);
    let a = skip_white(s, from, to);
    lemma_drop_white(s, a, to);
    lemma_skip_shift(s, from, to, from);
    lemma_drop_shift(s, from, to, a, to);
    assert(trim(t) =~= s.subrange(a, drop_white(s, a, to)));
}

proof fn lemma_skip_shift(s: Seq<char>, from: int, to: int, i: int)
    requires
        0 <= from <= i <= to <= s.len(),
    ensures
        skip_white(s.subrange(from, to), i - from, to - from) == skip_white(s, i, to) - from,
    decreases to - i,
{
    if i < to {
        assert(s.subrange(from, to)[i - from] == s[i]);
        if is_white(s[i]) {
            lemma_skip_shift(s, from, to, i + 1);
        }
    }
}

proof fn lemma_drop_shift(s: Seq<char>, from: int, to: int, a: int, i: int)
    requires
        0 <= from <= a <= i <= to <= s.len(),
    ensures
        drop_white(s.subrange(from, to), a - from, i - from) == drop_white(s, a, i) - from,
    decreases i - a,
{
    if i > a {
        assert(s.subrange(from, to)[i - 1 - from] == s[i - 1]);
        if is_white(s[i - 1]) {
            lemma_drop_shift(s, from, to, a, i - 1);
        }
    }
}

/// A newline behind a text is trimmed away.
pub proof fn lemma_trim_newline(code: Seq<char>)
    ensures
        trim(code.push('\n')) == trim(code),
{
    let t = code.push('\n');
    let n = code.len() as int;
    assert(is_white(t[n]));
    assert(t.subrange(0, n) =~= code);
    assert(t.subrange(0, n + 1) =~= t);
    lemma_trim_range(t, 0, n);
    lemma_trim_range(t, 0, n + 1);
    lemma_skip_longer(t, 0, n);
    let a = skip_white(t, 0, n);
    if a < n {
        assert(drop_white(t, a, n + 1) == drop_white(t, a, n));
    } else {
        reveal_with_fuel(drop_white, 3);
        assert(trim(t) =~= trim(code));
    }
}

proof fn lemma_skip_longer(t: Seq<char>, i: int, n: int)
    requires
        0 <= i <= n < t.len(),
        is_white(t[n]),
    ensures
        skip_white(t, i, n) < n ==> skip_white(t, i, n + 1) == skip_white(t, i, n),
        skip_white(t, i, n) >= n ==> skip_white(t, i, n + 1) == n + 1,
    decreases n - i,
{
    if i < n {
        if is_white(t[i]) {
            lemma_skip_longer(t, i + 1, n);
        }
    } else {
        reveal_with_fuel(skip_white, 3);
    }
}

/// The text without white space at either end.
pub fn trimmed(s: &str) -> (r: String)
    ensures
        r@ == trim(s@),
{
    let v = to_chars(s);
    let from: usize = find_start(&v, 0, v.len());
    let to: usize = find_end(&v, from, v.len());
    chars_to_string(&v, from, to)
}

// ---------------------------------------------------------------------
// Prefixes and search
// ---------------------------------------------------------------------

/// Whether `p` stands in `s` at place `at`.
pub open spec fn stands_at(s: Seq<char>, p: Seq<char>, at: int) -> bool {
    0 <= at && at + p.len() <= s.len() && s.subrange(at, at + p.len()) == p
}

/// The first place at or behind `i` where `p` stands.
pub open spec fn find_at(s: Seq<char>, p: Seq<char>, i: int) -> Option<int>
    decreases s.len() - i + 1,
{
    if i > s.len() {
        None
    } else if stands_at(s, p, i) {
        Some(i)
    } else {
        find_at(s, p, i + 1)
    }
}

/// The last place at or before `i` where `p` stands.
pub open spec fn rfind_at(s: Seq<char>, p: Seq<char>, i: int) -> Option<int>
    decreases i + 1,
{
    if i < 0 {
        None
    } else if stands_at(s, p, i) {
        Some(i)
    } else {
        rfind_at(s, p, i - 1)
    }
}

/// The first place is found where it is known.
pub proof fn find_at_is_first(s: Seq<char>, p: Seq<char>, i: int, k: int)
    requires
        0 <= i <= k,
        stands_at(s, p, k),
        forall|j: int| i <= j < k ==> !#[trigger] stands_at(s, p, j),
    ensures
        find_at(s, p, i) == Some(k),
    decreases k - i,
{
    if i < k {
        assert(!stands_at(s, p, i));
        find_at_is_first(s, p, i + 1, k);
    }
}

/// The last place is found where it is known.
pub proof fn rfind_at_is_last(s: Seq<char>, p: Seq<char>, i: int, k: int)
    requires
        0 <= k <= i,
        stands_at(s, p, k),
        forall|j: int| k < j <= i ==> !#[trigger] stands_at(s, p, j),
    ensures
        rfind_at(s, p, i) == Some(k),
    decreases i - k,
{
    if i > k {
        rfind_at_is_last(s, p, i - 1, k);
    }
}

/// Nothing is found where nothing stands.
pub proof fn find_at_none(s: Seq<char>, p: Seq<char>, i: int)
    requires
        0 <= i,
        forall|j: int| i <= j <= s.len() ==> !#[trigger] stands_at(s, p, j),
    ensures
        find_at(s, p, i) is None,
    decreases s.len() - i + 1,
{
    if i <= s.len() {
        assert(!stands_at(s, p, i));
        find_at_none(s, p, i + 1);
    }
}

pub fn chars_at(v: &[char], p: &[char], at: usize) -> (r: bool)
    ensures
        r == stands_at(v@, p@, at as int),
{
    if at > v.len() || p.len() > v.len() - at {
        return false;
    }
    let mut i: usize = 0;
    while i < p.len()
        invariant
            i <= p.len(),
            at + p.len() <= v.len(),
            forall|k: int| 0 <= k < i ==> v@[at + k] == p@[k],
        decreases p.len() - i,
    {
        if v[at + i] != p[i] {
            assert(v@.subrange(at as int, at + p@.len())[i as int] != p@[i as int]);
            return false;
        }
        i = i + 1;
    }
    assert(v@.subrange(at as int, at + p@.len()) =~= p@);
    true
}

pub fn find_chars(v: &[char], p: &[char], from: usize) -> (r: Option<usize>)
    ensures
        match r {
            Some(i) => find_at(v@, p@, from as int) == Some(i as int) && from <= i && i + p@.len()
                <= v@.len(),
            None => find_at(v@, p@, from as int) is None,
        },
{
    if from > v.len() {
        return None;
    }
    let mut i: usize = from;
    while i < v.len()
        invariant
            from <= i <= v.len(),
            find_at(v@, p@, from as int) == find_at(v@, p@, i as int),
        decreases v.len() - i,
    {
        if chars_at(v, p, i) {
            return Some(i);
        }
        i = i + 1;
    }
    if chars_at(v, p, i) {
        Some(i)
    } else {
        assert(find_at(v@, p@, i + 1) is None);
        None
    }
}

pub fn rfind_chars(v: &[char], p: &[char]) -> (r: Option<usize>)
    ensures
        match r {
            Some(i) => rfind_at(v@, p@, v@.len() as int) == Some(i as int) && i + p@.len()
                <= v@.len(),
            None => rfind_at(v@, p@, v@.len() as int) is None,
        },
{
    let mut i: usize = v.len();
    while i > 0
        invariant
            i <= v.len(),
            rfind_at(v@, p@, v@.len() as int) == rfind_at(v@, p@, i as int),
        decreases i,
    {
        if chars_at(v, p, i) {
            return Some(i);
        }
        i = i - 1;
    }
    if chars_at(v, p, 0) {
        Some(0)
    } else {
        assert(rfind_at(v@, p@, -1) is None);
        None
    }
}

// ---------------------------------------------------------------------
// Lines
// ---------------------------------------------------------------------

/// The end of the line that `i` stands in: its newline or the end of the text.
pub open spec fn line_stop(s: Seq<char>, i: int) -> int
    decreases s.len() - i,
{
    if i >= s.len() || s[i] == '\n' {
        i
    } else {
        line_stop(s, i + 1)
    }
}

/// The end of a line's text: a carriage return before the newline is no part
/// of it.
pub open spec fn line_text_end(s: Seq<char>, from: int, stop: int) -> int {
    if stop < s.len() && stop > from && s[stop - 1] == '\r' {
        stop - 1
    } else {
        stop
    }
}

/// The lines of the text from `i` on. A newline at the very end opens no line.
pub open spec fn lines_from(s: Seq<char>, i: int) -> Seq<Seq<char>>
    decreases s.len() - i + 1,
{
    if i >= s.len() {
        Seq::empty()
    } else {
        let stop = line_stop(s, i);
        proof {
            lemma_line_stop(s, i);
        }
        seq![s.subrange(i, line_text_end(s, i, stop))] + lines_from(s, stop + 1)
    }
}

pub proof fn lemma_line_stop(s: Seq<char>, i: int)
    ensures
        i <= line_stop(s, i),
        i <= s.len() ==> line_stop(s, i) <= s.len(),
    decreases s.len() - i,
{
    if i < s.len() && s[i] != '\n' {
        lemma_line_stop(s, i + 1);
    }
}

/// A text that ends with a line, or holds none.
pub open spec fn ends_line(s: Seq<char>) -> bool {
    s.len() == 0 || s.last() == '\n'
}

/// Without a carriage return before a newline.
pub open spec fn no_crlf(s: Seq<char>) -> bool {
    forall|i: int| 0 <= i && i + 1 < s.len() ==> !(#[trigger] s[i] == '\r' && s[i + 1] == '\n')
}

/// Lines, each with a newline, one after the other.
pub open spec fn joined_lines(lines: Seq<Seq<char>>) -> Seq<char>
    decreases lines.len(),
{
    if lines.len() == 0 {
        Seq::empty()
    } else {
        lines[0].push('\n') + joined_lines(lines.subrange(1, lines.len() as int))
    }
}

proof fn lemma_stop_inside(s: Seq<char>, t: Seq<char>, i: int)
    requires
        0 <= i < s.len(),
        s.last() == '\n',
    ensures
        line_stop(s + t, i) == line_stop(s, i),
        line_stop(s, i) < s.len(),
    decreases s.len() - i,
{
    assert((s + t)[i] == s[i]);
    if s[i] != '\n' {
        lemma_stop_inside(s, t, i + 1);
    }
}

proof fn lemma_stop_behind(s: Seq<char>, t: Seq<char>, k: int)
    requires
        0 <= k <= t.len(),
    ensures
        line_stop(s + t, s.len() + k) == s.len() + line_stop(t, k),
    decreases t.len() - k,
{
    if k < t.len() {
        assert((s + t)[s.len() + k] == t[k]);
        if t[k] != '\n' {
            lemma_stop_behind(s, t, k + 1);
        }
    }
}

proof fn lemma_lines_behind(s: Seq<char>, t: Seq<char>, k: int)
    requires
        0 <= k <= t.len(),
    ensures
        lines_from(s + t, s.len() + k) == lines_from(t, k),
    decreases t.len() - k,
{
    if k < t.len() {
        let n = s.len() as int;
        let stop = line_stop(t, k);
        lemma_line_stop(t, k);
        lemma_stop_behind(s, t, k);
        assert(stop > k ==> (s + t)[n + stop - 1] == t[stop - 1]);
        let end = line_text_end(t, k, stop);
        assert(line_text_end(s + t, n + k, n + stop) == n + end);
        assert((s + t).subrange(n + k, n + end) =~= t.subrange(k, end));
        if stop < t.len() {
            lemma_lines_behind(s, t, stop + 1);
        } else {
            assert(lines_from(t, stop + 1) =~= Seq::<Seq<char>>::empty());
            assert(lines_from(s + t, n + stop + 1) =~= Seq::<Seq<char>>::empty());
        }
    }
}

proof fn lemma_lines_inside(s: Seq<char>, t: Seq<char>, i: int)
    requires
        0 <= i <= s.len(),
        ends_line(s),
    ensures
        lines_from(s + t, i) == lines_from(s, i) + lines_from(t, 0),
    decreases s.len() - i,
{
    let all = s + t;
    if i == s.len() {
        lemma_lines_behind(s, t, 0);
        assert(lines_from(s, i) + lines_from(t, 0) =~= lines_from(t, 0));
    } else {
        let stop = line_stop(s, i);
        lemma_line_stop(s, i);
        lemma_stop_inside(s, t, i);
        assert(stop > i ==> all[stop - 1] == s[stop - 1]);
        let end = line_text_end(s, i, stop);
        assert(line_text_end(all, i, stop) == end);
        assert(all.subrange(i, end) =~= s.subrange(i, end));
        lemma_lines_inside(s, t, stop + 1);
        assert(lines_from(all, i) =~= lines_from(s, i) + lines_from(t, 0));
    }
}

/// The lines of two texts one after the other, where the first ends with a
/// line, are those of the first and then those of the second.
pub proof fn lines_of_two(s: Seq<char>, t: Seq<char>)
    requires
        ends_line(s),
    ensures
        lines_from(s + t, 0) == lines_from(s, 0) + lines_from(t, 0),
{
    lemma_lines_inside(s, t, 0);
}

/// A text on one line and a newline are that line.
pub proof fn line_of_one(s: Seq<char>)
    requires
        !s.contains('\n'),
        s.len() == 0 || s.last() != '\r',
    ensures
        lines_from(s.push('\n'), 0) == seq![s],
{
    let t = s.push('\n');
    lemma_stop_of_one(s, 0);
    assert(s.len() > 0 ==> t[s.len() - 1] == s.last());
    assert(line_text_end(t, 0, s.len() as int) == s.len());
    assert(t.subrange(0, s.len() as int) =~= s);
    assert(lines_from(t, t.len() as int) =~= Seq::<Seq<char>>::empty());
    assert(lines_from(t, 0) =~= seq![s]);
}

proof fn lemma_stop_of_one(s: Seq<char>, i: int)
    requires
        0 <= i <= s.len(),
        !s.contains('\n'),
    ensures
        line_stop(s.push('\n'), i) == s.len(),
    decreases s.len() - i,
{
    if i < s.len() {
        assert(s.contains(s[i]));
        lemma_stop_of_one(s, i + 1);
    }
}

proof fn lemma_stop_at(s: Seq<char>, i: int)
    requires
        0 <= i <= s.len(),
    ensures
        line_stop(s, i) < s.len() ==> s[line_stop(s, i)] == '\n',
    decreases s.len() - i,
{
    if i < s.len() && s[i] != '\n' {
        lemma_stop_at(s, i + 1);
    }
}

/// The lines from `i` on make up the text again, with a newline behind the
/// last.
proof fn lemma_joined(s: Seq<char>, i: int)
    requires
        0 <= i <= s.len(),
        no_crlf(s),
    ensures
        joined_lines(lines_from(s, i)) == if i == s.len() || s.last() == '\n' {
            s.subrange(i, s.len() as int)
        } else {
            s.subrange(i, s.len() as int).push('\n')
        },
    decreases s.len() - i,
{
    if i < s.len() {
        let stop = line_stop(s, i);
        lemma_line_stop(s, i);
        lemma_stop_at(s, i);
        let lines = lines_from(s, i);
        let rest = lines_from(s, stop + 1);
        assert(line_text_end(s, i, stop) == stop);
        assert(lines =~= seq![s.subrange(i, stop)] + rest);
        assert(lines[0] == s.subrange(i, stop));
        assert(lines.subrange(1, lines.len() as int) =~= rest);
        if stop < s.len() {
            lemma_joined(s, stop + 1);
            assert(s.subrange(i, stop).push('\n') + s.subrange(stop + 1, s.len() as int)
                =~= s.subrange(i, s.len() as int));
            assert(joined_lines(lines) =~= if s.last() == '\n' {
                s.subrange(i, s.len() as int)
            } else {
                s.subrange(i, s.len() as int).push('\n')
            });
        } else {
            assert(joined_lines(rest) =~= Seq::<char>::empty());
            assert(s.last() == s[s.len() - 1]);
            lemma_no_newline(s, i);
            assert(joined_lines(lines) =~= s.subrange(i, s.len() as int).push('\n'));
        }
    } else {
        assert(s.subrange(i, s.len() as int) =~= Seq::<char>::empty());
    }
}

proof fn lemma_no_newline(s: Seq<char>, i: int)
    requires
        0 <= i < s.len(),
        line_stop(s, i) >= s.len(),
    ensures
        s.last() != '\n',
    decreases s.len() - i,
{
    if i + 1 < s.len() {
        lemma_no_newline(s, i + 1);
    } else {
        reveal_with_fuel(line_stop, 2);
    }
}

/// The lines of a text joined again and trimmed are the text trimmed.
pub proof fn joined_lines_are_the_text(s: Seq<char>)
    requires
        no_crlf(s),
    ensures
        trim(joined_lines(lines_from(s, 0))) == trim(s),
{
    lemma_joined(s, 0);
    assert(s.subrange(0, s.len() as int) =~= s);
    lemma_trim_newline(s);
}

/// A newline behind a text that ends inside a line changes none of its lines.
pub proof fn newline_at_the_end(s: Seq<char>)
    requires
        s.len() > 0,
        s.last() != '\n',
        s.last() != '\r',
    ensures
        lines_from(s.push('\n'), 0) == lines_from(s, 0),
{
    lemma_newline_behind(s, 0);
}

proof fn lemma_stop_before_end(s: Seq<char>, i: int)
    requires
        0 <= i <= s.len(),
    ensures
        line_stop(s.push('\n'), i) == line_stop(s, i),
    decreases s.len() - i,
{
    if i < s.len() {
        if s[i] != '\n' {
            lemma_stop_before_end(s, i + 1);
        }
    } else {
        reveal_with_fuel(line_stop, 2);
    }
}

proof fn lemma_newline_behind(s: Seq<char>, i: int)
    requires
        0 <= i < s.len(),
        s.last() != '\n',
        s.last() != '\r',
    ensures
        lines_from(s.push('\n'), i) == lines_from(s, i),
    decreases s.len() - i,
{
    let t = s.push('\n');
    let stop = line_stop(s, i);
    lemma_line_stop(s, i);
    lemma_stop_at(s, i);
    lemma_stop_before_end(s, i);
    assert(stop > i ==> t[stop - 1] == s[stop - 1]);
    let end = line_text_end(s, i, stop);
    assert(line_text_end(t, i, stop) == end);
    assert(t.subrange(i, end) =~= s.subrange(i, end));
    if stop < s.len() {
        assert(stop + 1 < s.len());
        lemma_newline_behind(s, stop + 1);
    } else {
        assert(lines_from(s, stop + 1) =~= Seq::<Seq<char>>::empty());
        assert(lines_from(t, stop + 1) =~= Seq::<Seq<char>>::empty());
    }
}

/// One line: its text is `from .. to`, and the next begins at `next`.
pub struct LineSpan {
    pub to: usize,
    pub next: usize,
}

/// The line that begins at `from`.
pub fn line_at(v: &[char], from: usize) -> (r: LineSpan)
    requires
        from < v.len(),
    ensures
        r.to == line_text_end(v@, from as int, line_stop(v@, from as int)),
        from <= r.to <= v.len(),
        r.next == (if line_stop(v@, from as int) < v@.len() {
            line_stop(v@, from as int) + 1
        } else {
            v@.len() as int
        }),
        from < r.next <= v.len(),
        lines_from(v@, from as int) == seq![v@.subrange(from as int, r.to as int)] + lines_from(
            v@,
            r.next as int,
        ),
{
    let mut stop: usize = from;
    while stop < v.len() && v[stop] != '\n'
        invariant
            from <= stop <= v.len(),
            line_stop(v@, from as int) == line_stop(v@, stop as int),
        decreases v.len() - stop,
    {
        stop = stop + 1;
    }
    let to: usize = if stop < v.len() && stop > from && v[stop - 1] == '\r' {
        stop - 1
    } else {
        stop
    };
    if stop < v.len() {
        LineSpan { to, next: stop + 1 }
    } else {
        assert(lines_from(v@, stop as int) =~= lines_from(v@, stop + 1));
        LineSpan { to, next: stop }
    }
}

// ---------------------------------------------------------------------
// What searching, trimming and splitting mean
// ---------------------------------------------------------------------

/// A text is found at the first place where it stands, and not found only where
/// it stands nowhere.
pub proof fn found_place_is_first(s: Seq<char>, p: Seq<char>, i: int)
    requires
        0 <= i,
    ensures
        match find_at(s, p, i) {
            Some(k) => {
                &&& i <= k
                &&& k + p.len() <= s.len()
                &&& s.subrange(k, k + p.len()) == p
                &&& forall|j: int|
                    i <= j < k && j + p.len() <= s.len() ==> #[trigger] s.subrange(j, j + p.len())
                        != p
            },
            None => forall|j: int|
                i <= j && j + p.len() <= s.len() ==> #[trigger] s.subrange(j, j + p.len()) != p,
        },
    decreases s.len() - i + 1,
{
    if i <= s.len() && !stands_at(s, p, i) {
        found_place_is_first(s, p, i + 1);
    }
}

/// From the end a text is found at the last place where it stands.
pub proof fn found_place_is_last(s: Seq<char>, p: Seq<char>, i: int)
    requires
        i <= s.len(),
    ensures
        match rfind_at(s, p, i) {
            Some(k) => {
                &&& 0 <= k <= i
                &&& k + p.len() <= s.len()
                &&& s.subrange(k, k + p.len()) == p
                &&& forall|j: int|
                    k < j <= i && j + p.len() <= s.len() ==> #[trigger] s.subrange(j, j + p.len())
                        != p
            },
            None => forall|j: int|
                0 <= j <= i && j + p.len() <= s.len() ==> #[trigger] s.subrange(j, j + p.len()) != p,
        },
    decreases i + 1,
{
    if i >= 0 && !stands_at(s, p, i) {
        found_place_is_last(s, p, i - 1);
    }
}

proof fn lemma_skipped_is_white(s: Seq<char>, i: int, end: int)
    requires
        0 <= i <= end <= s.len(),
    ensures
        forall|k: int| i <= k < skip_white(s, i, end) ==> is_white(#[trigger] s[k]),
    decreases end - i,
{
    if i < end && is_white(s[i]) {
        lemma_skipped_is_white(s, i + 1, end);
    }
}

proof fn lemma_dropped_is_white(s: Seq<char>, from: int, i: int)
    requires
        0 <= from <= i <= s.len(),
    ensures
        forall|k: int| drop_white(s, from, i) <= k < i ==> is_white(#[trigger] s[k]),
    decreases i - from,
{
    if i > from && is_white(s[i - 1]) {
        lemma_dropped_is_white(s, from, i - 1);
    }
}

/// Trimming takes white space away from both ends, all of it and nothing else:
/// `a` places in front and `b` places behind.
pub proof fn trimming_takes_white_space(s: Seq<char>) -> (ends: (int, int))
    ensures
        0 <= ends.0 <= ends.1 <= s.len(),
        trim(s) == s.subrange(ends.0, ends.1),
        forall|k: int| 0 <= k < ends.0 ==> is_white(#[trigger] s[k]),
        forall|k: int| ends.1 <= k < s.len() ==> is_white(#[trigger] s[k]),
        trim(s).len() > 0 ==> !is_white(trim(s)[0]) && !is_white(trim(s).last()),
{
    let n = s.len() as int;
    lemma_skip_white(s, 0, n);
    let a = skip_white(s, 0, n);
    lemma_drop_white(s, a, n);
    lemma_skipped_is_white(s, 0, n);
    lemma_dropped_is_white(s, a, n);
    trim_is_trimmed(s);
    (a, drop_white(s, a, n))
}

/// White space of ASCII, and what is none.
pub proof fn ascii_white_space(c: char)
    requires
        c as int <= 127,
    ensures
        is_white(c) <==> c == ' ' || c == '\t' || c == '\n' || c == '\r' || c as int == 11 || c as int
            == 12,
{
}

/// No line holds a newline, and a text without carriage returns before newlines
/// is made up of its lines again, with a newline behind each, except behind the
/// last where the text had none.
pub proof fn lines_make_up_the_text(s: Seq<char>)
    ensures
        forall|i: int| 0 <= i < lines_from(s, 0).len() ==> !(#[trigger] lines_from(s, 0)[i]).contains('\n'),
        no_crlf(s) ==> joined_lines(lines_from(s, 0)) == if ends_line(s) {
            s
        } else {
            s.push('\n')
        },
{
    lemma_lines_have_none(s, 0);
    if no_crlf(s) {
        lemma_joined(s, 0);
        assert(s.subrange(0, s.len() as int) =~= s);
    }
}

proof fn lemma_lines_have_none(s: Seq<char>, i: int)
    requires
        0 <= i,
    ensures
        forall|k: int| 0 <= k < lines_from(s, i).len() ==> !(#[trigger] lines_from(s, i)[k]).contains('\n'),
    decreases s.len() - i + 1,
{
    if i < s.len() {
        let stop = line_stop(s, i);
        lemma_line_stop(s, i);
        lemma_before_stop(s, i);
        let end = line_text_end(s, i, stop);
        let rest = lines_from(s, stop + 1);
        lemma_lines_have_none(s, stop + 1);
        let all = lines_from(s, i);
        assert forall|k: int| 0 <= k < all.len() implies !(#[trigger] all[k]).contains('\n') by {
            if k == 0 {
                assert(all[0] == s.subrange(i, end));
                if all[0].contains('\n') {
                    let m = choose|m: int| 0 <= m < all[0].len() && all[0][m] == '\n';
                    assert(s[i + m] == '\n');
                }
            } else {
                assert(all[k] == rest[k - 1]);
            }
        }
    }
}

proof fn lemma_before_stop(s: Seq<char>, i: int)
    requires
        0 <= i <= s.len(),
    ensures
        forall|k: int| i <= k < line_stop(s, i) ==> #[trigger] s[k] != '\n',
    decreases s.len() - i,
{
    if i < s.len() && s[i] != '\n' {
        lemma_before_stop(s, i + 1);
    }
}

/// Trimming the end takes white space away from it, all of it and nothing else.
pub proof fn trimming_the_end_takes_white_space(s: Seq<char>)
    ensures
        trim_end(s).is_prefix_of(s),
        forall|k: int| trim_end(s).len() <= k < s.len() ==> is_white(#[trigger] s[k]),
        trim_end(s).len() > 0 ==> !is_white(trim_end(s).last()),
{
    let n = s.len() as int;
    lemma_drop_white(s, 0, n);
    lemma_dropped_is_white(s, 0, n);
    lemma_drop_white_stops(s, 0, n);
    let e = drop_white(s, 0, n);
    assert(trim_end(s) =~= s.subrange(0, e));
    if e > 0 {
        assert(trim_end(s).last() == s[e - 1]);
    }
}

} // verus!
