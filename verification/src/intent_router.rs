//! Routing of intents: the applications that can handle one, ranked by how
//! well they fit.
use vstd::prelude::*;
use vstd::string::*;

use crate::chars::{
    find_at, find_chars, found_place_is_first, found_place_is_last, rfind_at, rfind_chars, to_chars,
};
use crate::intent_types::{
    has_text, Capability, CapabilityView, Handler, HandlerView, Intent, IntentStep, RoutingResult,
    TaskId, FULL_CONFIDENCE,
};
use crate::tokenizer::texts;

verus! {

broadcast use vstd::seq_lib::group_seq_properties;

/// What `str::to_lowercase` makes of a text.
pub uninterp spec fn lowercase(s: Seq<char>) -> Seq<char>;

/// An ASCII character in lower case.
pub open spec fn ascii_lower(c: char) -> char {
    if 'A' <= c <= 'Z' {
        (c as u32 + 32) as char
    } else {
        c
    }
}

/// `str::to_lowercase`: of a text in ASCII it changes exactly the capital
/// letters. What it makes of other characters is left to the name.
#[verifier::external_body]
fn to_lower(s: &str) -> (r: String)
    ensures
        r@ == lowercase(s@),
        (forall|i: int| 0 <= i < s@.len() ==> (#[trigger] s@[i] as u32) < 128) ==> r@
            == s@.map_values(|c: char| ascii_lower(c)),
{
    s.to_lowercase()
}

/// Whether a text holds another one.
pub open spec fn holds(s: Seq<char>, p: Seq<char>) -> bool {
    find_at(s, p, 0) is Some
}

pub fn holds_text(s: &str, p: &str) -> (r: bool)
    ensures
        r == holds(s@, p@),
{
    let a = to_chars(s);
    let b = to_chars(p);
    find_chars(a.as_slice(), b.as_slice(), 0).is_some()
}

/// The extension in a query: what stands behind its last dot.
pub open spec fn extension(query: Seq<char>) -> Option<Seq<char>> {
    match rfind_at(query, seq!['.'], query.len() as int) {
        Some(i) => Some(query.subrange(i + 1, query.len() as int)),
        None => None,
    }
}

fn extension_of(query: &str) -> (r: Option<Vec<char>>)
    ensures
        match r {
            Some(e) => extension(query@) == Some(e@),
            None => extension(query@) is None,
        },
{
    let v = to_chars(query);
    let dot: [char; 1] = ['.'];
    assert(dot@ =~= seq!['.']);
    match rfind_chars(v.as_slice(), &dot) {
        Some(i) => {
            let mut e: Vec<char> = Vec::new();
            assert(v@.len() == v.len());
            let mut k: usize = i + 1;
            while k < v.len()
                invariant
                    i < k <= v@.len(),
                    e@ == v@.subrange(i + 1, k as int),
                decreases v@.len() - k,
            {
                e.push(v[k]);
                k = k + 1;
                assert(e@ =~= v@.subrange(i + 1, k as int));
            }
            Some(e)
        },
        None => None,
    }
}

/// Whether one of some texts holds `p`.
pub open spec fn some_holds(v: Seq<Seq<char>>, p: Seq<char>) -> bool {
    exists|i: int| 0 <= i < v.len() && holds(#[trigger] v[i], p)
}

/// Whether `s` holds one of some texts.
pub open spec fn holds_some(s: Seq<char>, v: Seq<Seq<char>>) -> bool {
    exists|i: int| 0 <= i < v.len() && holds(s, #[trigger] v[i])
}

fn any_holds(v: &Vec<String>, p: &[char]) -> (r: bool)
    ensures
        r == some_holds(texts(v@), p@),
{
    let mut i: usize = 0;
    while i < v.len()
        invariant
            i <= v@.len(),
            forall|k: int| 0 <= k < i ==> !holds(#[trigger] texts(v@)[k], p@),
        decreases v@.len() - i,
    {
        let a = to_chars(v[i].as_str());
        assert(texts(v@)[i as int] == a@);
        if find_chars(a.as_slice(), p, 0).is_some() {
            assert(holds(texts(v@)[i as int], p@));
            return true;
        }
        i = i + 1;
    }
    false
}

fn held_by(s: &str, v: &Vec<String>) -> (r: bool)
    ensures
        r == holds_some(s@, texts(v@)),
{
    let mut i: usize = 0;
    while i < v.len()
        invariant
            i <= v@.len(),
            forall|k: int| 0 <= k < i ==> !holds(s@, #[trigger] texts(v@)[k]),
        decreases v@.len() - i,
    {
        assert(texts(v@)[i as int] == v@[i as int]@);
        if holds_text(s, v[i].as_str()) {
            assert(holds(s@, texts(v@)[i as int]));
            return true;
        }
        i = i + 1;
    }
    false
}

// ---------------------------------------------------------------------
// How well an application fits
// ---------------------------------------------------------------------

/// Words of a command, each with the tag of the applications that it suits.
pub const KEYWORDS: [(&'static str, &'static str); 9] = [
    ("edit", "editor"),
    ("text", "editor"),
    ("write", "editor"),
    ("send", "communication"),
    ("message", "communication"),
    ("email", "communication"),
    ("compile", "development"),
    ("build", "development"),
    ("run", "development"),
];

pub open spec fn points(hit: bool, n: int) -> int {
    if hit {
        n
    } else {
        0
    }
}

/// For opening a file: an extension that one of the file types holds, the
/// action, and being an editor.
pub open spec fn file_score(cap: CapabilityView, query: Seq<char>) -> int {
    points(
        extension(query) is Some && some_holds(cap.file_types, extension(query)->Some_0),
        500_000,
    ) + points(cap.actions.contains("open_file"@), 300_000) + points(
        cap.tags.contains("editor"@),
        200_000,
    )
}

/// For sending a message: the tag, the action, and that a medium is named.
pub open spec fn message_score(cap: CapabilityView, medium: bool) -> int {
    points(cap.tags.contains("communication"@), 500_000) + points(
        cap.actions.contains("send_message"@),
        300_000,
    ) + points(medium, 200_000)
}

/// The points of the first `k` keywords for a command in lower case.
pub open spec fn keyword_score(cap: CapabilityView, lower: Seq<char>, k: int) -> int
    decreases k,
{
    if k <= 0 {
        0
    } else {
        keyword_score(cap, lower, k - 1) + points(
            holds(lower, KEYWORDS@[k - 1].0@) && cap.tags.contains(KEYWORDS@[k - 1].1@),
            300_000,
        )
    }
}

/// For a command, in lower case: its keywords, and the action.
pub open spec fn command_score(cap: CapabilityView, lower: Seq<char>) -> int {
    keyword_score(cap, lower, 9) + points(cap.actions.contains("run_command"@), 400_000)
}

/// For creating content: the action, and a file type that the kind of content
/// names.
pub open spec fn create_score(cap: CapabilityView, content_type: Seq<char>) -> int {
    points(cap.actions.contains("create_content"@), 500_000) + points(
        holds_some(content_type, cap.file_types),
        300_000,
    )
}

/// How well an application fits an intent. `lower` is the command in lower
/// case.
pub open spec fn fit(intent: Intent, lower: Seq<char>, cap: CapabilityView) -> int {
    match intent {
        Intent::OpenFile { query, .. } => file_score(cap, query@),
        Intent::SendMessage { medium, .. } => message_score(cap, medium is Some),
        Intent::RunCommand { .. } => command_score(cap, lower),
        Intent::Transform { .. } => points(cap.actions.contains("transform_data"@), 700_000),
        Intent::Create { content_type, .. } => create_score(cap, content_type@),
        Intent::Search { .. } => points(cap.actions.contains("search"@), 800_000),
    }
}

/// The command of an intent in lower case.
pub open spec fn lower_of(intent: Intent) -> Seq<char> {
    match intent {
        Intent::RunCommand { command, .. } => lowercase(command@),
        _ => Seq::empty(),
    }
}

/// No application fits an intent with more than 3.1 times full confidence.
proof fn lemma_fit_range(intent: Intent, lower: Seq<char>, cap: CapabilityView)
    ensures
        0 <= fit(intent, lower, cap) <= 3_100_000,
{
    lemma_keyword_range(cap, lower, 9);
}

proof fn lemma_keyword_range(cap: CapabilityView, lower: Seq<char>, k: int)
    requires
        0 <= k,
    ensures
        0 <= keyword_score(cap, lower, k) <= 300_000 * k,
    decreases k,
{
    if k > 0 {
        lemma_keyword_range(cap, lower, k - 1);
    }
}

fn count(hit: bool, n: u64) -> (r: u64)
    ensures
        r == points(hit, n as int),
{
    if hit {
        n
    } else {
        0
    }
}

fn keyword_points(cap: &Capability, lower: &str) -> (r: u64)
    ensures
        r == keyword_score(cap@, lower@, 9),
        r <= 2_700_000,
{
    let mut sum: u64 = 0;
    let mut k: usize = 0;
    while k < 9
        invariant
            k <= 9,
            sum == keyword_score(cap@, lower@, k as int),
            sum <= 300_000 * k,
        decreases 9 - k,
    {
        let hit: bool = holds_text(lower, KEYWORDS[k].0) && has_text(&cap.tags, KEYWORDS[k].1);
        sum = sum + count(hit, 300_000);
        k = k + 1;
    }
    sum
}

/// How well an application fits an intent, given its command in lower case.
pub fn fit_of(intent: &Intent, lower: &str, cap: &Capability) -> (r: u64)
    ensures
        r == fit(*intent, lower@, cap@),
{
    match intent {
        Intent::OpenFile { query, .. } => {
            let typed: bool = match extension_of(query.as_str()) {
                Some(e) => any_holds(&cap.file_types, e.as_slice()),
                None => false,
            };
            count(typed, 500_000) + count(has_text(&cap.actions, "open_file"), 300_000) + count(
                has_text(&cap.tags, "editor"),
                200_000,
            )
        },
        Intent::SendMessage { medium, .. } => {
            count(has_text(&cap.tags, "communication"), 500_000) + count(
                has_text(&cap.actions, "send_message"),
                300_000,
            ) + count(medium.is_some(), 200_000)
        },
        Intent::RunCommand { .. } => {
            keyword_points(cap, lower) + count(has_text(&cap.actions, "run_command"), 400_000)
        },
        Intent::Transform { .. } => count(has_text(&cap.actions, "transform_data"), 700_000),
        Intent::Create { content_type, .. } => {
            count(has_text(&cap.actions, "create_content"), 500_000) + count(
                held_by(content_type.as_str(), &cap.file_types),
                300_000,
            )
        },
        Intent::Search { .. } => count(has_text(&cap.actions, "search"), 800_000),
    }
}

// ---------------------------------------------------------------------
// Ranking
// ---------------------------------------------------------------------

pub open spec fn handler_views(v: Seq<Handler>) -> Seq<HandlerView> {
    v.map_values(|h: Handler| h@)
}

/// The place of a handler in a ranking: behind all that are no less confident,
/// looked at from `i` on.
pub open spec fn rank_place(v: Seq<HandlerView>, confidence: int, i: int) -> int
    decreases v.len() - i,
{
    if i >= v.len() || v[i].confidence < confidence {
        i
    } else {
        rank_place(v, confidence, i + 1)
    }
}

/// Handlers from the most confident one down. Equally confident ones keep
/// their order.
pub open spec fn ranked(v: Seq<HandlerView>) -> Seq<HandlerView>
    decreases v.len(),
{
    if v.len() == 0 {
        Seq::empty()
    } else {
        let before = ranked(v.drop_last());
        before.insert(rank_place(before, v.last().confidence, 0), v.last())
    }
}

pub open spec fn is_ranked(v: Seq<HandlerView>) -> bool {
    forall|i: int, j: int|
        0 <= i < j < v.len() ==> (#[trigger] v[i]).confidence >= (#[trigger] v[j]).confidence
}

proof fn lemma_rank_place(v: Seq<HandlerView>, confidence: int, i: int)
    requires
        0 <= i <= v.len(),
        is_ranked(v),
        forall|k: int| 0 <= k < i ==> (#[trigger] v[k]).confidence >= confidence,
    ensures
        i <= rank_place(v, confidence, i) <= v.len(),
        forall|k: int|
            0 <= k < rank_place(v, confidence, i) ==> (#[trigger] v[k]).confidence >= confidence,
        forall|k: int|
            rank_place(v, confidence, i) <= k < v.len() ==> (#[trigger] v[k]).confidence
                < confidence,
    decreases v.len() - i,
{
    if i < v.len() && v[i].confidence >= confidence {
        lemma_rank_place(v, confidence, i + 1);
    }
}

/// A ranking goes from the most confident handler down and holds the same
/// handlers.
pub proof fn ranking_is_sorted(v: Seq<HandlerView>)
    ensures
        is_ranked(ranked(v)),
        ranked(v).to_multiset() == v.to_multiset(),
        ranked(v).len() == v.len(),
    decreases v.len(),
{
    if v.len() == 0 {
        assert(ranked(v) =~= v);
    } else {
        let rest = v.drop_last();
        let before = ranked(rest);
        ranking_is_sorted(rest);
        let p = rank_place(before, v.last().confidence, 0);
        lemma_rank_place(before, v.last().confidence, 0);
        let after = before.insert(p, v.last());
        assert forall|i: int, j: int| 0 <= i < j < after.len() implies (
        #[trigger] after[i]).confidence >= (#[trigger] after[j]).confidence by {
            let a = if i < p {
                before[i]
            } else if i == p {
                v.last()
            } else {
                before[i - 1]
            };
            let b = if j < p {
                before[j]
            } else if j == p {
                v.last()
            } else {
                before[j - 1]
            };
            assert(after[i] == a && after[j] == b);
        }
        broadcast use vstd::seq_lib::group_to_multiset_ensures;

        assert(after.to_multiset() =~= before.to_multiset().insert(v.last()));
        assert(v =~= rest.push(v.last()));
        assert(v.to_multiset() =~= rest.to_multiset().insert(v.last()));
    }
}

/// Puts a handler into a ranking.
fn rank_in(v: &mut Vec<Handler>, h: Handler)
    requires
        old(v)@.len() < usize::MAX,
    ensures
        handler_views(final(v)@) == handler_views(old(v)@).insert(
            rank_place(handler_views(old(v)@), h@.confidence, 0),
            h@,
        ),
        final(v)@.len() == old(v)@.len() + 1,
{
    let ghost views = handler_views(v@);
    let mut i: usize = 0;
    while i < v.len() && v[i].confidence >= h.confidence
        invariant
            i <= v@.len(),
            views == handler_views(v@),
            rank_place(views, h@.confidence, 0) == rank_place(views, h@.confidence, i as int),
        ensures
            i <= v@.len(),
            rank_place(views, h@.confidence, 0) == i,
        decreases v@.len() - i,
    {
        assert(views[i as int].confidence == v@[i as int].confidence);
        i = i + 1;
    }
    let ghost before = v@;
    let ghost hv = h@;
    v.insert(i, h);
    assert(handler_views(v@) =~= views.insert(i as int, hv));
}

/// The handlers among the first `k` applications, with how well each fits.
pub open spec fn fitting(intent: Intent, lower: Seq<char>, caps: Seq<Capability>, k: int) -> Seq<
    HandlerView,
>
    decreases k,
{
    if k <= 0 {
        Seq::empty()
    } else {
        let score = fit(intent, lower, caps[k - 1]@);
        if score > 0 {
            fitting(intent, lower, caps, k - 1).push(caps[k - 1]@.handler(score))
        } else {
            fitting(intent, lower, caps, k - 1)
        }
    }
}

/// The handlers for an intent by its pattern, ranked, given its command in
/// lower case.
pub fn match_lower(intent: &Intent, lower: &str, caps: &Vec<Capability>) -> (r: Vec<Handler>)
    ensures
        handler_views(r@) == ranked(fitting(*intent, lower@, caps@, caps@.len() as int)),
        r@.len() <= caps@.len(),
{
    let mut out: Vec<Handler> = Vec::new();
    let mut k: usize = 0;
    assert(handler_views(out@) =~= Seq::<HandlerView>::empty());
    while k < caps.len()
        invariant
            k <= caps@.len(),
            out@.len() <= k,
            handler_views(out@) == ranked(fitting(*intent, lower@, caps@, k as int)),
        decreases caps@.len() - k,
    {
        let score: u64 = fit_of(intent, lower, &caps[k]);
        if score > 0 {
            let h = caps[k].to_handler(score);
            let ghost before = fitting(*intent, lower@, caps@, k as int);
            rank_in(&mut out, h);
            assert(before.push(h@).drop_last() =~= before);
        }
        k = k + 1;
    }
    out
}

/// The handlers for an intent by its pattern, ranked.
pub fn match_pattern(intent: &Intent, caps: &Vec<Capability>) -> (r: Vec<Handler>)
    ensures
        handler_views(r@) == ranked(
            fitting(*intent, lower_of(*intent), caps@, caps@.len() as int),
        ),
        r@.len() <= caps@.len(),
{
    let lower = match intent {
        Intent::RunCommand { command, .. } => to_lower(command.as_str()),
        _ => String::new(),
    };
    assert(lower@ =~= lower_of(*intent));
    match_lower(intent, lower.as_str(), caps)
}

// ---------------------------------------------------------------------
// Patterns and meaning together
// ---------------------------------------------------------------------

/// The place of a task's handler from `i` on.
pub open spec fn handler_from(v: Seq<HandlerView>, task: TaskId, i: int) -> Option<int>
    decreases v.len() - i,
{
    if i >= v.len() {
        None
    } else if v[i].task_id == task {
        Some(i)
    } else {
        handler_from(v, task, i + 1)
    }
}

/// The confidence in a handler that was found both ways: the mean of the two
/// and a fifth more, up to full confidence.
pub open spec fn boosted(a: int, b: int) -> int {
    let c = (a + b) * 3 / 5;
    if c <= FULL_CONFIDENCE {
        c
    } else {
        FULL_CONFIDENCE as int
    }
}

/// A handler taken over into others.
pub open spec fn joined(v: Seq<HandlerView>, h: HandlerView) -> Seq<HandlerView> {
    match handler_from(v, h.task_id, 0) {
        Some(i) => v.update(
            i,
            HandlerView { confidence: boosted(v[i].confidence, h.confidence), ..v[i] },
        ),
        None => v.push(h),
    }
}

/// The first `k` handlers by meaning taken over into those by pattern.
pub open spec fn joined_all(p: Seq<HandlerView>, s: Seq<HandlerView>, k: int) -> Seq<HandlerView>
    decreases k,
{
    if k <= 0 {
        p
    } else {
        joined(joined_all(p, s, k - 1), s[k - 1])
    }
}

/// A handler put among others, in place of one of the same task.
pub open spec fn placed(v: Seq<HandlerView>, h: HandlerView) -> Seq<HandlerView> {
    match handler_from(v, h.task_id, 0) {
        Some(i) => v.update(i, h),
        None => v.push(h),
    }
}

/// Of the first `k` handlers, the last one of each task.
pub open spec fn last_of_each(p: Seq<HandlerView>, k: int) -> Seq<HandlerView>
    decreases k,
{
    if k <= 0 {
        Seq::empty()
    } else {
        placed(last_of_each(p, k - 1), p[k - 1])
    }
}

/// The handlers by pattern and by meaning together, one for each task. Without
/// any by meaning, those by pattern stay as they are.
pub open spec fn merged(p: Seq<HandlerView>, s: Seq<HandlerView>) -> Seq<HandlerView> {
    if s.len() == 0 {
        p
    } else {
        ranked(joined_all(last_of_each(p, p.len() as int), s, s.len() as int))
    }
}

proof fn lemma_handler_from(v: Seq<HandlerView>, task: TaskId, i: int)
    requires
        0 <= i,
    ensures
        match handler_from(v, task, i) {
            Some(k) => i <= k < v.len() && v[k].task_id == task,
            None => forall|k: int| i <= k < v.len() ==> (#[trigger] v[k]).task_id != task,
        },
    decreases v.len() - i,
{
    if i < v.len() && v[i].task_id != task {
        lemma_handler_from(v, task, i + 1);
    }
}

/// The place of a task's handler.
fn find_handler(v: &Vec<Handler>, task: TaskId) -> (r: Option<usize>)
    ensures
        match r {
            Some(i) => i < v@.len() && handler_from(handler_views(v@), task, 0) == Some(i as int),
            None => handler_from(handler_views(v@), task, 0) is None,
        },
{
    let mut i: usize = 0;
    while i < v.len()
        invariant
            i <= v@.len(),
            handler_from(handler_views(v@), task, 0) == handler_from(
                handler_views(v@),
                task,
                i as int,
            ),
        decreases v@.len() - i,
    {
        assert(handler_views(v@)[i as int] == v@[i as int]@);
        if v[i].task_id == task {
            return Some(i);
        }
        i = i + 1;
    }
    None
}

fn place(v: &mut Vec<Handler>, h: Handler)
    requires
        old(v)@.len() < usize::MAX,
    ensures
        handler_views(final(v)@) == placed(handler_views(old(v)@), h@),
        final(v)@.len() <= old(v)@.len() + 1,
{
    let ghost views = handler_views(v@);
    let ghost hv = h@;
    match find_handler(v, h.task_id) {
        Some(i) => {
            v.set(i, h);
            assert(handler_views(v@) =~= views.update(i as int, hv));
        },
        None => {
            v.push(h);
            assert(handler_views(v@) =~= views.push(hv));
        },
    }
}

fn join(v: &mut Vec<Handler>, h: Handler)
    requires
        old(v)@.len() < usize::MAX,
    ensures
        handler_views(final(v)@) == joined(handler_views(old(v)@), h@),
        final(v)@.len() <= old(v)@.len() + 1,
{
    let ghost views = handler_views(v@);
    let ghost hv = h@;
    match find_handler(v, h.task_id) {
        Some(i) => {
            assert(views[i as int] == v@[i as int]@);
            let raised: u128 = (v[i].confidence as u128 + h.confidence as u128) * 3 / 5;
            let confidence: u64 = if raised <= FULL_CONFIDENCE as u128 {
                raised as u64
            } else {
                FULL_CONFIDENCE
            };
            let known = Handler {
                task_id: v[i].task_id,
                task_name: v[i].task_name.as_str().to_owned(),
                confidence,
                capabilities: crate::intent_types::copy_texts(&v[i].capabilities),
            };
            v.set(i, known);
            assert(handler_views(v@) =~= joined(views, hv));
        },
        None => {
            v.push(h);
            assert(handler_views(v@) =~= views.push(hv));
        },
    }
}

/// Merges the handlers by pattern and by meaning. Of several handlers of one
/// task by pattern the last counts.
pub fn merge_handler_rankings(pattern: Vec<Handler>, semantic: Vec<Handler>) -> (r: Vec<Handler>)
    requires
        pattern@.len() + semantic@.len() < usize::MAX,
    ensures
        handler_views(r@) == merged(handler_views(pattern@), handler_views(semantic@)),
{
    let n: usize = semantic.len();
    if n == 0 {
        return pattern;
    }
    let ghost pv = handler_views(pattern@);
    let ghost sv = handler_views(semantic@);
    let ghost most = pattern@.len() + semantic@.len();
    let m: usize = pattern.len();
    let mut all: Vec<Handler> = Vec::new();
    let mut first = pattern;
    let mut k: usize = 0;
    assert(handler_views(all@) =~= Seq::<HandlerView>::empty());
    while k < m
        invariant
            k <= m,
            m == pv.len(),
            m < usize::MAX,
            first@.len() == m - k,
            all@.len() <= k,
            forall|i: int| 0 <= i < first@.len() ==> (#[trigger] first@[i])@ == pv[k + i],
            handler_views(all@) == last_of_each(pv, k as int),
        decreases m - k,
    {
        let ghost before = first@;
        let h = first.remove(0);
        assert(before[0]@ == pv[k as int]);
        assert forall|i: int| 0 <= i < first@.len() implies (#[trigger] first@[i])@ == pv[k + 1
            + i] by {
            assert(first@[i] == before[i + 1]);
        }
        place(&mut all, h);
        k = k + 1;
    }
    let ghost base = last_of_each(pv, pv.len() as int);
    let mut rest = semantic;
    let mut k: usize = 0;
    while k < n
        invariant
            k <= n,
            n == sv.len(),
            rest@.len() == n - k,
            most < usize::MAX,
            all@.len() + rest@.len() <= most,
            forall|i: int| 0 <= i < rest@.len() ==> (#[trigger] rest@[i])@ == sv[k + i],
            handler_views(all@) == joined_all(base, sv, k as int),
        decreases n - k,
    {
        let ghost before = rest@;
        let h = rest.remove(0);
        assert(before[0]@ == sv[k as int]);
        assert forall|i: int| 0 <= i < rest@.len() implies (#[trigger] rest@[i])@ == sv[k + 1
            + i] by {
            assert(rest@[i] == before[i + 1]);
        }
        join(&mut all, h);
        k = k + 1;
    }
    let ghost joined_views = handler_views(all@);
    let m: usize = all.len();
    let mut out: Vec<Handler> = Vec::new();
    let mut k: usize = 0;
    assert(handler_views(out@) =~= Seq::<HandlerView>::empty());
    assert(joined_views.subrange(0, 0) =~= Seq::<HandlerView>::empty());
    while k < m
        invariant
            k <= m,
            m == joined_views.len(),
            m <= most < usize::MAX,
            all@.len() == m - k,
            out@.len() == k,
            forall|i: int| 0 <= i < all@.len() ==> (#[trigger] all@[i])@ == joined_views[k + i],
            handler_views(out@) == ranked(joined_views.subrange(0, k as int)),
        decreases m - k,
    {
        let ghost before = all@;
        let h = all.remove(0);
        assert(before[0]@ == joined_views[k as int]);
        assert forall|i: int| 0 <= i < all@.len() implies (#[trigger] all@[i])@ == joined_views[k
            + 1 + i] by {
            assert(all@[i] == before[i + 1]);
        }
        let ghost grown = joined_views.subrange(0, k + 1);
        assert(grown.drop_last() =~= joined_views.subrange(0, k as int));
        assert(grown.last() == h@);
        rank_in(&mut out, h);
        assert(handler_views(out@).len() == out@.len());
        k = k + 1;
    }
    assert(joined_views.subrange(0, m as int) =~= joined_views);
    out
}

/// What the handler of an intent is asked to do.
pub open spec fn action_name(intent: Intent) -> Seq<char> {
    match intent {
        Intent::OpenFile { .. } => "open_file"@,
        Intent::SendMessage { .. } => "send_message"@,
        Intent::RunCommand { .. } => "run_command"@,
        Intent::Transform { .. } => "transform_data"@,
        Intent::Create { .. } => "create_content"@,
        Intent::Search { .. } => "search"@,
    }
}

pub fn get_action_for_intent(intent: &Intent) -> (r: String)
    ensures
        r@ == action_name(*intent),
{
    match intent {
        Intent::OpenFile { .. } => "open_file".to_owned(),
        Intent::SendMessage { .. } => "send_message".to_owned(),
        Intent::RunCommand { .. } => "run_command".to_owned(),
        Intent::Transform { .. } => "transform_data".to_owned(),
        Intent::Create { .. } => "create_content".to_owned(),
        Intent::Search { .. } => "search".to_owned(),
    }
}

/// The plan: one step for the first handler, and none without any.
pub open spec fn is_plan(plan: Seq<IntentStep>, intent: Intent, handlers: Seq<HandlerView>) -> bool {
    if handlers.len() == 0 {
        plan.len() == 0
    } else {
        plan.len() == 1 && plan[0].handler == handlers[0].task_id && plan[0].action@
            == action_name(intent) && plan[0].data is None
    }
}

pub fn build_execution_plan(intent: &Intent, handlers: &Vec<Handler>) -> (r: Vec<IntentStep>)
    ensures
        is_plan(r@, *intent, handler_views(handlers@)),
{
    let mut plan: Vec<IntentStep> = Vec::new();
    if handlers.len() == 0 {
        return plan;
    }
    plan.push(
        IntentStep {
            handler: handlers[0].task_id,
            action: get_action_for_intent(intent),
            data: None,
        },
    );
    plan
}

// ---------------------------------------------------------------------
// The router
// ---------------------------------------------------------------------

/// The registered applications, one entry per task.
pub struct IntentRouter {
    pub capabilities: Vec<Capability>,
}

/// The place of a task among applications from `i` on.
pub open spec fn task_from(caps: Seq<Capability>, task: TaskId, i: int) -> Option<int>
    decreases caps.len() - i,
{
    if i >= caps.len() {
        None
    } else if caps[i].task_id == task {
        Some(i)
    } else {
        task_from(caps, task, i + 1)
    }
}

proof fn lemma_task_from(caps: Seq<Capability>, task: TaskId, i: int)
    requires
        0 <= i,
    ensures
        match task_from(caps, task, i) {
            Some(k) => i <= k < caps.len() && caps[k].task_id == task,
            None => forall|k: int| i <= k < caps.len() ==> (#[trigger] caps[k]).task_id != task,
        },
    decreases caps.len() - i,
{
    if i < caps.len() && caps[i].task_id != task {
        lemma_task_from(caps, task, i + 1);
    }
}

/// Finds a task among applications.
pub fn find_task(caps: &Vec<Capability>, task: TaskId) -> (r: Option<usize>)
    ensures
        match (r, task_from(caps@, task, 0)) {
            (Some(a), Some(b)) => a == b && a < caps@.len() && caps@[b].task_id == task,
            (None, None) => true,
            _ => false,
        },
{
    let mut i: usize = 0;
    while i < caps.len()
        invariant
            i <= caps@.len(),
            task_from(caps@, task, 0) == task_from(caps@, task, i as int),
        decreases caps@.len() - i,
    {
        if caps[i].task_id == task {
            return Some(i);
        }
        i = i + 1;
    }
    None
}

impl IntentRouter {
    /// No task has two entries.
    pub open spec fn wf(self) -> bool {
        forall|i: int, j: int|
            0 <= i < j < self.capabilities@.len() ==> (#[trigger] self.capabilities@[i]).task_id
                != (#[trigger] self.capabilities@[j]).task_id
    }

    /// What a task is registered with.
    pub open spec fn entry(self, task: TaskId) -> Option<Capability> {
        match task_from(self.capabilities@, task, 0) {
            Some(i) => Some(self.capabilities@[i]),
            None => None,
        }
    }

    pub fn new() -> (r: Self)
        ensures
            r.wf(),
            r.capabilities@ == Seq::<Capability>::empty(),
    {
        IntentRouter { capabilities: Vec::new() }
    }

    /// Registers an application in the place of what its task had registered.
    pub fn register(&mut self, capability: Capability)
        requires
            old(self).wf(),
        ensures
            final(self).wf(),
            final(self).capabilities@ == (match task_from(
                old(self).capabilities@,
                capability.task_id,
                0,
            ) {
                Some(i) => old(self).capabilities@.update(i, capability),
                None => old(self).capabilities@.push(capability),
            }),
            final(self).entry(capability.task_id) == Some(capability),
            forall|t: TaskId|
                t != capability.task_id ==> #[trigger] final(self).entry(t) == old(self).entry(t),
    {
        let ghost before = self.capabilities@;
        proof {
            lemma_task_from(before, capability.task_id, 0);
        }
        match find_task(&self.capabilities, capability.task_id) {
            Some(i) => {
                self.capabilities.set(i, capability);
                assert forall|a: int, b: int| 0 <= a < b < self.capabilities@.len() implies (
                #[trigger] self.capabilities@[a]).task_id != (
                #[trigger] self.capabilities@[b]).task_id by {
                    assert(self.capabilities@[a].task_id == before[a].task_id);
                    assert(self.capabilities@[b].task_id == before[b].task_id);
                }
            },
            None => {
                self.capabilities.push(capability);
                assert forall|a: int, b: int| 0 <= a < b < self.capabilities@.len() implies (
                #[trigger] self.capabilities@[a]).task_id != (
                #[trigger] self.capabilities@[b]).task_id by {
                    assert(self.capabilities@[a] == before[a]);
                    if b < before.len() {
                        assert(self.capabilities@[b] == before[b]);
                    }
                }
            },
        }
        proof {
            registration_is_kept(*old(self), *self, capability);
        }
    }

    /// Removes an application, and says whether it was registered.
    pub fn unregister(&mut self, task_id: TaskId) -> (r: bool)
        requires
            old(self).wf(),
        ensures
            final(self).wf(),
            match task_from(old(self).capabilities@, task_id, 0) {
                Some(i) => r && final(self).capabilities@ == old(self).capabilities@.remove(i),
                None => !r && final(self).capabilities@ == old(self).capabilities@,
            },
            final(self).entry(task_id) is None,
            forall|t: TaskId| t != task_id ==> #[trigger] final(self).entry(t) == old(self).entry(t),
    {
        let ghost before = self.capabilities@;
        match find_task(&self.capabilities, task_id) {
            Some(i) => {
                self.capabilities.remove(i);
                assert forall|a: int, b: int| 0 <= a < b < self.capabilities@.len() implies (
                #[trigger] self.capabilities@[a]).task_id != (
                #[trigger] self.capabilities@[b]).task_id by {
                    let x = if a < i {
                        a
                    } else {
                        a + 1
                    };
                    let y = if b < i {
                        b
                    } else {
                        b + 1
                    };
                    assert(self.capabilities@[a] == before[x] && self.capabilities@[b]
                        == before[y]);
                }
                proof {
                    removal_removes_only_that(*old(self), *self, task_id);
                }
                true
            },
            None => {
                proof {
                    removal_removes_only_that(*old(self), *self, task_id);
                }
                false
            },
        }
    }

    /// The handlers that an intent is routed to, given those by meaning.
    pub open spec fn routed(self, intent: Intent, semantic: Seq<HandlerView>) -> Seq<HandlerView> {
        merged(
            ranked(
                fitting(
                    intent,
                    lower_of(intent),
                    self.capabilities@,
                    self.capabilities@.len() as int,
                ),
            ),
            semantic,
        )
    }

    /// Routes an intent, given the handlers that were found for its meaning.
    pub fn route(&self, intent: &Intent, semantic: Vec<Handler>) -> (r: RoutingResult)
        requires
            self.capabilities@.len() + semantic@.len() < usize::MAX,
        ensures
            handler_views(r.handlers@) == self.routed(*intent, handler_views(semantic@)),
            is_plan(r.execution_plan@, *intent, handler_views(r.handlers@)),
            r.confidence <= FULL_CONFIDENCE,
            r.handlers@.len() == 0 ==> r.confidence == 0,
            r.handlers@.len() > 0 ==> r.confidence == if r.handlers@[0].confidence
                <= FULL_CONFIDENCE {
                r.handlers@[0].confidence
            } else {
                FULL_CONFIDENCE
            },
            forall|i: int|
                0 <= i < self.capabilities@.len() && (
                #[trigger] self.capabilities@[i])@.actions.contains(action_name(*intent))
                    ==> has_task(handler_views(r.handlers@), self.capabilities@[i].task_id),
    {
        proof {
            assert forall|i: int|
                0 <= i < self.capabilities@.len() && (
                #[trigger] self.capabilities@[i])@.actions.contains(
                    action_name(*intent),
                ) implies has_task(
                self.routed(*intent, handler_views(semantic@)),
                self.capabilities@[i].task_id,
            ) by {
                declared_action_is_routed_to(*self, *intent, handler_views(semantic@), i);
            }
        }
        let pattern = match_pattern(intent, &self.capabilities);
        let handlers = merge_handler_rankings(pattern, semantic);
        let execution_plan = build_execution_plan(intent, &handlers);
        let confidence: u64 = if handlers.len() == 0 {
            0
        } else if handlers[0].confidence <= FULL_CONFIDENCE {
            handlers[0].confidence
        } else {
            FULL_CONFIDENCE
        };
        RoutingResult { handlers, execution_plan, confidence }
    }
}

/// A registered application is found under its task with what it registered,
/// and the others stay.
pub proof fn registration_is_kept(before: IntentRouter, after: IntentRouter, cap: Capability)
    requires
        before.wf(),
        after.capabilities@ == (match task_from(before.capabilities@, cap.task_id, 0) {
            Some(i) => before.capabilities@.update(i, cap),
            None => before.capabilities@.push(cap),
        }),
    ensures
        after.entry(cap.task_id) == Some(cap),
        forall|t: TaskId| t != cap.task_id ==> #[trigger] after.entry(t) == before.entry(t),
{
    let b = before.capabilities@;
    let a = after.capabilities@;
    lemma_task_from(b, cap.task_id, 0);
    match task_from(b, cap.task_id, 0) {
        Some(i) => {
            lemma_same_tasks(b, a, cap.task_id, 0);
            assert forall|t: TaskId| t != cap.task_id implies #[trigger] after.entry(t)
                == before.entry(t) by {
                lemma_same_tasks(b, a, t, 0);
                lemma_task_from(b, t, 0);
            }
        },
        None => {
            lemma_pushed_task(b, cap, cap.task_id, 0);
            assert forall|t: TaskId| t != cap.task_id implies #[trigger] after.entry(t)
                == before.entry(t) by {
                lemma_pushed_task(b, cap, t, 0);
                lemma_task_from(b, t, 0);
            }
        },
    }
}

proof fn lemma_same_tasks(a: Seq<Capability>, b: Seq<Capability>, task: TaskId, i: int)
    requires
        0 <= i,
        a.len() == b.len(),
        forall|k: int| 0 <= k < a.len() ==> (#[trigger] a[k]).task_id == (#[trigger] b[k]).task_id,
    ensures
        task_from(a, task, i) == task_from(b, task, i),
    decreases a.len() - i,
{
    if i < a.len() {
        assert(a[i].task_id == b[i].task_id);
        lemma_same_tasks(a, b, task, i + 1);
    }
}

proof fn lemma_pushed_task(a: Seq<Capability>, cap: Capability, task: TaskId, i: int)
    requires
        0 <= i <= a.len(),
    ensures
        task_from(a.push(cap), task, i) == (match task_from(a, task, i) {
            Some(k) => Some(k),
            None => if cap.task_id == task {
                Some(a.len() as int)
            } else {
                None
            },
        }),
    decreases a.len() - i,
{
    let b = a.push(cap);
    if i < a.len() {
        assert(b[i] == a[i]);
        if a[i].task_id != task {
            lemma_pushed_task(a, cap, task, i + 1);
        }
    } else {
        assert(b[i] == cap);
        assert(task_from(b, task, i + 1) is None);
    }
}

/// A task that is removed is not found any more, and the others stay.
pub proof fn removal_removes_only_that(before: IntentRouter, after: IntentRouter, task: TaskId)
    requires
        before.wf(),
        match task_from(before.capabilities@, task, 0) {
            Some(i) => after.capabilities@ == before.capabilities@.remove(i),
            None => after.capabilities@ == before.capabilities@,
        },
    ensures
        after.entry(task) is None,
        forall|t: TaskId| t != task ==> #[trigger] after.entry(t) == before.entry(t),
{
    let b = before.capabilities@;
    let a = after.capabilities@;
    lemma_task_from(b, task, 0);
    lemma_task_from(a, task, 0);
    match task_from(b, task, 0) {
        Some(i) => {
            assert forall|k: int| 0 <= k < a.len() implies (#[trigger] a[k]).task_id != task by {
                if k < i {
                    assert(a[k] == b[k]);
                } else {
                    assert(a[k] == b[k + 1]);
                }
            }
            assert forall|t: TaskId| t != task implies #[trigger] after.entry(t) == before.entry(
                t,
            ) by {
                lemma_removed_task(b, i, t, 0);
                lemma_task_from(b, t, 0);
            }
        },
        None => {},
    }
}

/// Where another task stands once the entry at `i` is gone.
proof fn lemma_removed_task(b: Seq<Capability>, i: int, task: TaskId, k: int)
    requires
        0 <= i < b.len(),
        0 <= k <= b.len(),
        b[i].task_id != task,
    ensures
        task_from(
            b.remove(i),
            task,
            if k <= i {
                k
            } else {
                k - 1
            },
        ) == (match task_from(b, task, k) {
            Some(m) => Some(
                if m < i {
                    m
                } else {
                    m - 1
                },
            ),
            None => None,
        }),
        task_from(b, task, k) != Some(i),
    decreases b.len() - k,
{
    let a = b.remove(i);
    if k < b.len() {
        lemma_removed_task(b, i, task, k + 1);
        if k < i {
            assert(a[k] == b[k]);
        } else if k > i {
            assert(a[k - 1] == b[k]);
        }
    }
}

/// The plan goes to a handler that is no less confident than any other.
pub proof fn best_handler_comes_first(p: Seq<HandlerView>, s: Seq<HandlerView>, i: int)
    requires
        is_ranked(p),
        0 <= i < merged(p, s).len(),
    ensures
        merged(p, s)[0].confidence >= merged(p, s)[i].confidence,
{
    ranking_is_sorted(joined_all(last_of_each(p, p.len() as int), s, s.len() as int));
}

/// Whether no task has two handlers.
pub open spec fn one_each(v: Seq<HandlerView>) -> bool {
    forall|i: int, j: int|
        0 <= i < j < v.len() ==> (#[trigger] v[i]).task_id != (#[trigger] v[j]).task_id
}

proof fn lemma_last_of_each(p: Seq<HandlerView>, k: int)
    requires
        0 <= k <= p.len(),
    ensures
        one_each(last_of_each(p, k)),
    decreases k,
{
    if k > 0 {
        lemma_last_of_each(p, k - 1);
        lemma_handler_from(last_of_each(p, k - 1), p[k - 1].task_id, 0);
    }
}

proof fn lemma_joined_once(p: Seq<HandlerView>, s: Seq<HandlerView>, k: int)
    requires
        0 <= k <= s.len(),
        one_each(p),
    ensures
        one_each(joined_all(p, s, k)),
    decreases k,
{
    if k > 0 {
        lemma_joined_once(p, s, k - 1);
        lemma_handler_from(joined_all(p, s, k - 1), s[k - 1].task_id, 0);
    }
}

/// What a ranking holds was there before it.
proof fn lemma_ranked_once(v: Seq<HandlerView>)
    requires
        one_each(v),
    ensures
        one_each(ranked(v)),
        forall|i: int| 0 <= i < ranked(v).len() ==> v.contains(#[trigger] ranked(v)[i]),
    decreases v.len(),
{
    if v.len() > 0 {
        let rest = v.drop_last();
        lemma_ranked_once(rest);
        ranking_is_sorted(rest);
        let r = ranked(rest);
        let at = rank_place(r, v.last().confidence, 0);
        lemma_rank_place(r, v.last().confidence, 0);
        let out = ranked(v);
        assert forall|i: int| 0 <= i < out.len() implies v.contains(#[trigger] out[i]) by {
            if i < at {
                assert(out[i] == r[i]);
                let j = choose|j: int| 0 <= j < rest.len() && rest[j] == r[i];
                assert(v[j] == out[i]);
            } else if i == at {
                assert(v[v.len() - 1] == out[i]);
            } else {
                assert(out[i] == r[i - 1]);
                let j = choose|j: int| 0 <= j < rest.len() && rest[j] == r[i - 1];
                assert(v[j] == out[i]);
            }
        }
        assert forall|i: int| 0 <= i < r.len() implies (#[trigger] r[i]).task_id
            != v.last().task_id by {
            let j = choose|j: int| 0 <= j < rest.len() && rest[j] == r[i];
            assert(v[j].task_id != v[v.len() - 1].task_id);
        }
        assert forall|i: int, j: int| 0 <= i < j < out.len() implies (#[trigger] out[i]).task_id
            != (#[trigger] out[j]).task_id by {
            let ri = if i < at { i } else { i - 1 };
            let rj = if j < at { j } else { j - 1 };
            assert(i != at ==> out[i] == r[ri]);
            assert(j != at ==> out[j] == r[rj]);
        }
    }
}

/// Where handlers are found by meaning, every task appears once in the merged
/// ranking.
pub proof fn merging_names_each_task_once(p: Seq<HandlerView>, s: Seq<HandlerView>)
    requires
        s.len() > 0,
    ensures
        one_each(merged(p, s)),
{
    lemma_last_of_each(p, p.len() as int);
    lemma_joined_once(last_of_each(p, p.len() as int), s, s.len() as int);
    lemma_ranked_once(joined_all(last_of_each(p, p.len() as int), s, s.len() as int));
}

// ---------------------------------------------------------------------
// What a fit means
// ---------------------------------------------------------------------

/// Whether `p` stands somewhere in `s`.
pub open spec fn stands_in(s: Seq<char>, p: Seq<char>) -> bool {
    exists|k: int| 0 <= k && k + p.len() <= s.len() && #[trigger] s.subrange(k, k + p.len()) == p
}

/// A text holds another one exactly where that one stands somewhere in it.
pub proof fn holding_is_standing_in(s: Seq<char>, p: Seq<char>)
    ensures
        holds(s, p) <==> stands_in(s, p),
{
    found_place_is_first(s, p, 0);
    if holds(s, p) {
        let k = find_at(s, p, 0)->0;
        assert(s.subrange(k, k + p.len()) == p);
    }
}

/// The extension is what stands behind the last dot; there is none without a
/// dot.
pub proof fn extension_is_behind_the_last_dot(name: Seq<char>, ext: Seq<char>, plain: Seq<char>)
    requires
        !ext.contains('.'),
        !plain.contains('.'),
    ensures
        extension(name.push('.') + ext) == Some(ext),
        extension(plain) is None,
{
    let q = name.push('.') + ext;
    let n = name.len() as int;
    let dot = seq!['.'];
    found_place_is_last(q, dot, q.len() as int);
    assert(q.subrange(n, n + 1) =~= dot);
    assert(extension(q) is Some);
    let k = rfind_at(q, dot, q.len() as int)->0;
    assert(q.subrange(k, k + 1)[0] == '.');
    if k > n {
        assert(q[k] == ext[k - n - 1]);
        assert(ext.contains(ext[k - n - 1]));
    }
    assert(q.subrange(n + 1, q.len() as int) =~= ext);
    found_place_is_last(plain, dot, plain.len() as int);
    if extension(plain) is Some {
        let k = rfind_at(plain, dot, plain.len() as int)->0;
        assert(plain.subrange(k, k + 1)[0] == '.');
        assert(plain.contains(plain[k]));
    }
}

/// What the handler of an intent is asked for, in words.
pub proof fn actions_have_their_names(intent: Intent)
    ensures
        intent is OpenFile ==> action_name(intent) == "open_file"@,
        intent is SendMessage ==> action_name(intent) == "send_message"@,
        intent is RunCommand ==> action_name(intent) == "run_command"@,
        intent is Transform ==> action_name(intent) == "transform_data"@,
        intent is Create ==> action_name(intent) == "create_content"@,
        intent is Search ==> action_name(intent) == "search"@,
{
}

/// An application that declares the action which an intent asks for always
/// fits: the plan can go to it.
pub proof fn declared_action_fits(intent: Intent, lower: Seq<char>, cap: CapabilityView)
    requires
        cap.actions.contains(action_name(intent)),
    ensures
        fit(intent, lower, cap) >= 300_000,
        intent is RunCommand ==> fit(intent, lower, cap) >= 400_000,
        intent is Create ==> fit(intent, lower, cap) >= 500_000,
        intent is Transform ==> fit(intent, lower, cap) == 700_000,
        intent is Search ==> fit(intent, lower, cap) == 800_000,
{
    lemma_keyword_range(cap, lower, 9);
}

/// An application that declares nothing fits nothing, except that any one may
/// send a message whose medium is named.
pub proof fn nothing_declared_fits_nothing(intent: Intent, lower: Seq<char>, cap: CapabilityView)
    requires
        cap.actions.len() == 0,
        cap.tags.len() == 0,
        cap.file_types.len() == 0,
    ensures
        fit(intent, lower, cap) == (if intent is SendMessage && intent->medium is Some {
            200_000int
        } else {
            0
        }),
{
    lemma_no_keyword(cap, lower, 9);
}

proof fn lemma_no_keyword(cap: CapabilityView, lower: Seq<char>, k: int)
    requires
        cap.tags.len() == 0,
    ensures
        keyword_score(cap, lower, k) == 0,
    decreases k,
{
    if k > 0 {
        lemma_no_keyword(cap, lower, k - 1);
    }
}

/// What counts when a file is opened: the action, being an editor, and a file
/// type in which the extension of the file stands.
pub proof fn opening_counts(
    intent: Intent,
    lower: Seq<char>,
    cap: CapabilityView,
    name: Seq<char>,
    ext: Seq<char>,
)
    requires
        intent is OpenFile,
        intent->OpenFile_query@ == name.push('.') + ext,
        !ext.contains('.'),
    ensures
        ({
            let typed = exists|i: int|
                0 <= i < cap.file_types.len() && stands_in(#[trigger] cap.file_types[i], ext);
            fit(intent, lower, cap) == (if cap.actions.contains("open_file"@) {
                300_000int
            } else {
                0
            }) + (if cap.tags.contains("editor"@) {
                200_000int
            } else {
                0
            }) + (if typed {
                500_000int
            } else {
                0
            })
        }),
{
    extension_is_behind_the_last_dot(name, ext, ext);
    assert forall|i: int| 0 <= i < cap.file_types.len() implies holds(
        #[trigger] cap.file_types[i],
        ext,
    ) == stands_in(cap.file_types[i], ext) by {
        holding_is_standing_in(cap.file_types[i], ext);
    }
}

/// What counts when a file without an extension is opened.
pub proof fn opening_without_extension_counts(intent: Intent, lower: Seq<char>, cap: CapabilityView)
    requires
        intent is OpenFile,
        !intent->OpenFile_query@.contains('.'),
    ensures
        fit(intent, lower, cap) == (if cap.actions.contains("open_file"@) {
            300_000int
        } else {
            0
        }) + (if cap.tags.contains("editor"@) {
            200_000int
        } else {
            0
        }),
{
    let q = intent->OpenFile_query@;
    extension_is_behind_the_last_dot(q, q, q);
}

/// What counts for a message and for new content.
pub proof fn sending_and_creating_count(intent: Intent, lower: Seq<char>, cap: CapabilityView)
    ensures
        intent matches Intent::SendMessage { medium, .. } ==> fit(intent, lower, cap) == (
        if cap.tags.contains("communication"@) {
            500_000int
        } else {
            0
        }) + (if cap.actions.contains("send_message"@) {
            300_000int
        } else {
            0
        }) + (if medium is Some {
            200_000int
        } else {
            0
        }),
        intent matches Intent::Create { content_type, .. } ==> {
            let typed = exists|i: int|
                0 <= i < cap.file_types.len() && stands_in(
                    content_type@,
                    #[trigger] cap.file_types[i],
                );
            fit(intent, lower, cap) == (if cap.actions.contains("create_content"@) {
                500_000int
            } else {
                0
            }) + (if typed {
                300_000int
            } else {
                0
            })
        },
        (intent is Transform && !cap.actions.contains("transform_data"@)) || (intent is Search
            && !cap.actions.contains("search"@)) ==> fit(intent, lower, cap) == 0,
{
    if let Intent::Create { content_type, .. } = intent {
        assert forall|i: int| 0 <= i < cap.file_types.len() implies holds(
            content_type@,
            #[trigger] cap.file_types[i],
        ) == stands_in(content_type@, cap.file_types[i]) by {
            holding_is_standing_in(content_type@, cap.file_types[i]);
        }
    }
}

/// What a word of a command is worth for applications with a tag.
pub open spec fn word_worth(
    lower: Seq<char>,
    cap: CapabilityView,
    word: Seq<char>,
    tag: Seq<char>,
) -> int {
    if stands_in(lower, word) && cap.tags.contains(tag) {
        300_000
    } else {
        0
    }
}

/// What counts for a command: the action, and each of the nine words that
/// stands in it where the application has the tag of the word.
pub proof fn commands_count(intent: Intent, lower: Seq<char>, cap: CapabilityView)
    requires
        intent is RunCommand,
    ensures
        fit(intent, lower, cap) == (if cap.actions.contains("run_command"@) {
            400_000int
        } else {
            0
        }) + word_worth(lower, cap, "edit"@, "editor"@) + word_worth(
            lower,
            cap,
            "text"@,
            "editor"@,
        ) + word_worth(lower, cap, "write"@, "editor"@) + word_worth(
            lower,
            cap,
            "send"@,
            "communication"@,
        ) + word_worth(lower, cap, "message"@, "communication"@) + word_worth(
            lower,
            cap,
            "email"@,
            "communication"@,
        ) + word_worth(lower, cap, "compile"@, "development"@) + word_worth(
            lower,
            cap,
            "build"@,
            "development"@,
        ) + word_worth(lower, cap, "run"@, "development"@),
{
    holding_is_standing_in(lower, "edit"@);
    holding_is_standing_in(lower, "text"@);
    holding_is_standing_in(lower, "write"@);
    holding_is_standing_in(lower, "send"@);
    holding_is_standing_in(lower, "message"@);
    holding_is_standing_in(lower, "email"@);
    holding_is_standing_in(lower, "compile"@);
    holding_is_standing_in(lower, "build"@);
    holding_is_standing_in(lower, "run"@);
    reveal_with_fuel(keyword_score, 10);
}

// ---------------------------------------------------------------------
// Who is routed to
// ---------------------------------------------------------------------

proof fn lemma_fitting(intent: Intent, lower: Seq<char>, caps: Seq<Capability>, k: int)
    requires
        0 <= k <= caps.len(),
    ensures
        fitting(intent, lower, caps, k).len() <= k,
        forall|i: int|
            0 <= i < k && fit(intent, lower, (#[trigger] caps[i])@) > 0 ==> fitting(
                intent,
                lower,
                caps,
                k,
            ).contains(caps[i]@.handler(fit(intent, lower, caps[i]@))),
        forall|h: HandlerView| #[trigger]
            fitting(intent, lower, caps, k).contains(h) ==> exists|i: int|
                0 <= i < k && fit(intent, lower, (#[trigger] caps[i])@) > 0 && h
                    == caps[i]@.handler(fit(intent, lower, caps[i]@)),
    decreases k,
{
    if k > 0 {
        lemma_fitting(intent, lower, caps, k - 1);
        let before = fitting(intent, lower, caps, k - 1);
        let after = fitting(intent, lower, caps, k);
        let score = fit(intent, lower, caps[k - 1]@);
        if score > 0 {
            let h = caps[k - 1]@.handler(score);
            assert(after == before.push(h));
            assert(after[before.len() as int] == h);
            assert forall|x: HandlerView| before.contains(x) implies #[trigger] after.contains(x) by {
                let j = choose|j: int| 0 <= j < before.len() && before[j] == x;
                assert(after[j] == x);
            }
            assert forall|x: HandlerView| #[trigger] after.contains(x) implies exists|i: int|
                0 <= i < k && fit(intent, lower, (#[trigger] caps[i])@) > 0 && x
                    == caps[i]@.handler(fit(intent, lower, caps[i]@)) by {
                let j = choose|j: int| 0 <= j < after.len() && after[j] == x;
                if j < before.len() {
                    assert(before[j] == x);
                    assert(before.contains(x));
                } else {
                    assert(caps[k - 1]@.handler(score) == x);
                }
            }
        }
    }
}

/// A ranking holds what it was made of.
proof fn lemma_ranked_holds(v: Seq<HandlerView>)
    ensures
        forall|h: HandlerView| #[trigger] ranked(v).contains(h) <==> v.contains(h),
{
    ranking_is_sorted(v);
    let r = ranked(v);
    assert forall|h: HandlerView| #[trigger] r.contains(h) <==> v.contains(h) by {
        r.to_multiset_ensures();
        v.to_multiset_ensures();
        assert(r.to_multiset().count(h) == v.to_multiset().count(h));
    }
}

/// Without handlers by meaning, an intent is routed to every registered
/// application that fits it and to no other, each with its fit as confidence,
/// from the most confident down.
pub proof fn every_fitting_application_is_routed_to(router: IntentRouter, intent: Intent)
    ensures
        ({
            let r = router.routed(intent, Seq::empty());
            let caps = router.capabilities@;
            &&& is_ranked(r)
            &&& forall|i: int|
                0 <= i < caps.len() && fit(intent, lower_of(intent), (#[trigger] caps[i])@) > 0
                    ==> r.contains(caps[i]@.handler(fit(intent, lower_of(intent), caps[i]@)))
            &&& forall|h: HandlerView| #[trigger]
                r.contains(h) ==> exists|i: int|
                    0 <= i < caps.len() && fit(intent, lower_of(intent), (#[trigger] caps[i])@) > 0
                        && h == caps[i]@.handler(fit(intent, lower_of(intent), caps[i]@))
        }),
{
    let caps = router.capabilities@;
    let f = fitting(intent, lower_of(intent), caps, caps.len() as int);
    lemma_fitting(intent, lower_of(intent), caps, caps.len() as int);
    ranking_is_sorted(f);
    lemma_ranked_holds(f);
}

/// An application that declares the action of an intent is among those that the
/// intent is routed to, whatever was found by meaning.
pub proof fn declared_action_is_routed_to(
    router: IntentRouter,
    intent: Intent,
    semantic: Seq<HandlerView>,
    i: int,
)
    requires
        0 <= i < router.capabilities@.len(),
        router.capabilities@[i]@.actions.contains(action_name(intent)),
    ensures
        exists|k: int|
            0 <= k < router.routed(intent, semantic).len() && (#[trigger] router.routed(
                intent,
                semantic,
            )[k]).task_id == router.capabilities@[i].task_id,
{
    let caps = router.capabilities@;
    let lower = lower_of(intent);
    let f = fitting(intent, lower, caps, caps.len() as int);
    let p = ranked(f);
    declared_action_fits(intent, lower, caps[i]@);
    lemma_fitting(intent, lower, caps, caps.len() as int);
    lemma_ranked_holds(f);
    let h = caps[i]@.handler(fit(intent, lower, caps[i]@));
    assert(p.contains(h));
    let k = choose|k: int| 0 <= k < p.len() && p[k] == h;
    assert(p[k].task_id == caps[i].task_id);
    lemma_merged_keeps_task(p, semantic, k);
    let m = merged(p, semantic);
    let n = choose|n: int| 0 <= n < m.len() && (#[trigger] m[n]).task_id == p[k].task_id;
    assert(router.routed(intent, semantic)[n].task_id == caps[i].task_id);
}

/// Whether a task has a handler.
pub open spec fn has_task(v: Seq<HandlerView>, task: TaskId) -> bool {
    exists|k: int| 0 <= k < v.len() && (#[trigger] v[k]).task_id == task
}

proof fn lemma_placed_tasks(v: Seq<HandlerView>, h: HandlerView, task: TaskId)
    ensures
        has_task(placed(v, h), task) <==> has_task(v, task) || h.task_id == task,
        has_task(joined(v, h), task) <==> has_task(v, task) || h.task_id == task,
{
    lemma_handler_from(v, h.task_id, 0);
    match handler_from(v, h.task_id, 0) {
        Some(i) => {
            let a = placed(v, h);
            let b = joined(v, h);
            assert forall|k: int| 0 <= k < v.len() implies (#[trigger] a[k]).task_id == v[k].task_id
                && b[k].task_id == v[k].task_id by {}
            if has_task(v, task) {
                let k = choose|k: int| 0 <= k < v.len() && (#[trigger] v[k]).task_id == task;
                assert(a[k].task_id == task && b[k].task_id == task);
            }
            if h.task_id == task {
                assert(a[i].task_id == task && b[i].task_id == task);
            }
            if has_task(a, task) {
                let k = choose|k: int| 0 <= k < a.len() && (#[trigger] a[k]).task_id == task;
                assert(v[k].task_id == task);
            }
            if has_task(b, task) {
                let k = choose|k: int| 0 <= k < b.len() && (#[trigger] b[k]).task_id == task;
                assert(a[k].task_id == v[k].task_id);
                assert(v[k].task_id == task);
            }
        },
        None => {
            let a = v.push(h);
            if has_task(v, task) {
                let k = choose|k: int| 0 <= k < v.len() && (#[trigger] v[k]).task_id == task;
                assert(a[k].task_id == task);
            }
            assert(a[v.len() as int] == h);
            if has_task(a, task) {
                let k = choose|k: int| 0 <= k < a.len() && (#[trigger] a[k]).task_id == task;
                if k < v.len() {
                    assert(v[k].task_id == task);
                }
            }
        },
    }
}

proof fn lemma_last_tasks(p: Seq<HandlerView>, k: int, task: TaskId)
    requires
        0 <= k <= p.len(),
    ensures
        has_task(last_of_each(p, k), task) <==> has_task(p.subrange(0, k), task),
    decreases k,
{
    if k > 0 {
        lemma_last_tasks(p, k - 1, task);
        lemma_placed_tasks(last_of_each(p, k - 1), p[k - 1], task);
        let a = p.subrange(0, k - 1);
        let b = p.subrange(0, k);
        if has_task(a, task) {
            let j = choose|j: int| 0 <= j < a.len() && (#[trigger] a[j]).task_id == task;
            assert(b[j].task_id == task);
        }
        if p[k - 1].task_id == task {
            assert(b[k - 1].task_id == task);
        }
        if has_task(b, task) {
            let j = choose|j: int| 0 <= j < b.len() && (#[trigger] b[j]).task_id == task;
            if j < k - 1 {
                assert(a[j].task_id == task);
            }
        }
    }
}

proof fn lemma_joined_tasks(v: Seq<HandlerView>, s: Seq<HandlerView>, k: int, task: TaskId)
    requires
        0 <= k <= s.len(),
    ensures
        has_task(joined_all(v, s, k), task) <==> has_task(v, task) || has_task(
            s.subrange(0, k),
            task,
        ),
    decreases k,
{
    if k > 0 {
        lemma_joined_tasks(v, s, k - 1, task);
        lemma_placed_tasks(joined_all(v, s, k - 1), s[k - 1], task);
        let a = s.subrange(0, k - 1);
        let b = s.subrange(0, k);
        if has_task(a, task) {
            let j = choose|j: int| 0 <= j < a.len() && (#[trigger] a[j]).task_id == task;
            assert(b[j].task_id == task);
        }
        if s[k - 1].task_id == task {
            assert(b[k - 1].task_id == task);
        }
        if has_task(b, task) {
            let j = choose|j: int| 0 <= j < b.len() && (#[trigger] b[j]).task_id == task;
            if j < k - 1 {
                assert(a[j].task_id == task);
            }
        }
    }
}

/// Merging loses no task and invents none.
pub proof fn merging_keeps_the_tasks(p: Seq<HandlerView>, s: Seq<HandlerView>, task: TaskId)
    ensures
        has_task(merged(p, s), task) <==> has_task(p, task) || has_task(s, task),
{
    if s.len() > 0 {
        let v = last_of_each(p, p.len() as int);
        let j = joined_all(v, s, s.len() as int);
        lemma_last_tasks(p, p.len() as int, task);
        lemma_joined_tasks(v, s, s.len() as int, task);
        assert(p.subrange(0, p.len() as int) =~= p);
        assert(s.subrange(0, s.len() as int) =~= s);
        lemma_ranked_holds(j);
        let r = ranked(j);
        if has_task(j, task) {
            let k = choose|k: int| 0 <= k < j.len() && (#[trigger] j[k]).task_id == task;
            assert(j.contains(j[k]));
            assert(r.contains(j[k]));
            let n = choose|n: int| 0 <= n < r.len() && r[n] == j[k];
            assert(r[n].task_id == task);
        }
        if has_task(r, task) {
            let k = choose|k: int| 0 <= k < r.len() && (#[trigger] r[k]).task_id == task;
            assert(r.contains(r[k]));
            assert(j.contains(r[k]));
            let n = choose|n: int| 0 <= n < j.len() && j[n] == r[k];
            assert(j[n].task_id == task);
        }
    }
}

proof fn lemma_merged_keeps_task(p: Seq<HandlerView>, s: Seq<HandlerView>, k: int)
    requires
        0 <= k < p.len(),
    ensures
        exists|n: int|
            0 <= n < merged(p, s).len() && (#[trigger] merged(p, s)[n]).task_id == p[k].task_id,
{
    assert(has_task(p, p[k].task_id));
    merging_keeps_the_tasks(p, s, p[k].task_id);
}

/// Whether an entry is the last one of its task.
pub open spec fn is_last(p: Seq<HandlerView>, i: int) -> bool {
    0 <= i < p.len() && forall|j: int| i < j < p.len() ==> (#[trigger] p[j]).task_id != p[i].task_id
}

proof fn lemma_last_is_kept(p: Seq<HandlerView>, k: int, i: int)
    requires
        0 <= k <= p.len(),
        0 <= i < k,
        forall|j: int| i < j < k ==> (#[trigger] p[j]).task_id != p[i].task_id,
    ensures
        last_of_each(p, k).contains(p[i]),
    decreases k,
{
    let before = last_of_each(p, k - 1);
    let after = last_of_each(p, k);
    lemma_handler_from(before, p[k - 1].task_id, 0);
    if i == k - 1 {
        match handler_from(before, p[k - 1].task_id, 0) {
            Some(n) => {
                assert(after[n] == p[i]);
            },
            None => {
                assert(after[before.len() as int] == p[i]);
            },
        }
    } else {
        lemma_last_is_kept(p, k - 1, i);
        let n = choose|n: int| 0 <= n < before.len() && before[n] == p[i];
        assert(after[n] == p[i]);
    }
}

/// A handler in both rankings: the one by pattern with the mean of the two
/// confidences and a fifth more, at most full confidence.
pub open spec fn in_both(h: HandlerView, by_meaning: int) -> HandlerView {
    let raised = (h.confidence + by_meaning) * 3 / 5;
    HandlerView {
        confidence: if raised > 1_000_000 {
            1_000_000
        } else {
            raised
        },
        ..h
    }
}

#[verifier::rlimit(40)]
proof fn lemma_joined_members(v: Seq<HandlerView>, s: Seq<HandlerView>, k: int)
    requires
        0 <= k <= s.len(),
        one_each(v),
        one_each(s),
    ensures
        forall|i: int|
            0 <= i < v.len() && !has_task(s.subrange(0, k), (#[trigger] v[i]).task_id)
                ==> joined_all(v, s, k).contains(v[i]),
        forall|i: int, j: int|
            0 <= i < v.len() && 0 <= j < k && (#[trigger] v[i]).task_id == (#[trigger] s[j]).task_id
                ==> joined_all(v, s, k).contains(in_both(v[i], s[j].confidence)),
        forall|j: int|
            0 <= j < k && !has_task(v, (#[trigger] s[j]).task_id) ==> joined_all(v, s, k).contains(
                s[j],
            ),
    decreases k,
{
    if k > 0 {
        lemma_joined_members(v, s, k - 1);
        let before = joined_all(v, s, k - 1);
        let after = joined_all(v, s, k);
        let h = s[k - 1];
        let fore = s.subrange(0, k - 1);
        lemma_joined_once(v, s, k - 1);
        lemma_handler_from(before, h.task_id, 0);
        lemma_joined_tasks(v, s, k - 1, h.task_id);
        assert(!has_task(fore, h.task_id)) by {
            if has_task(fore, h.task_id) {
                let j = choose|j: int| 0 <= j < fore.len() && (#[trigger] fore[j]).task_id
                    == h.task_id;
                assert(s[j].task_id == s[k - 1].task_id);
            }
        }
        assert forall|x: HandlerView| before.contains(x) && x.task_id != h.task_id implies #[trigger] after.contains(
            x,
        ) by {
            let n = choose|n: int| 0 <= n < before.len() && before[n] == x;
            assert(after[n] == x);
        }
        assert forall|i: int|
            0 <= i < v.len() && !has_task(s.subrange(0, k), (#[trigger] v[i]).task_id) implies after.contains(
            v[i],
        ) by {
            let all = s.subrange(0, k);
            assert(all[k - 1] == h);
            assert(v[i].task_id != h.task_id);
            if has_task(fore, v[i].task_id) {
                let j = choose|j: int| 0 <= j < fore.len() && (#[trigger] fore[j]).task_id
                    == v[i].task_id;
                assert(all[j].task_id == v[i].task_id);
            }
            assert(before.contains(v[i]));
        }
        assert forall|i: int, j: int|
            0 <= i < v.len() && 0 <= j < k && (#[trigger] v[i]).task_id == (#[trigger] s[j]).task_id implies after.contains(
            in_both(v[i], s[j].confidence),
        ) by {
            if j < k - 1 {
                assert(s[j].task_id != s[k - 1].task_id);
                assert(before.contains(in_both(v[i], s[j].confidence)));
            } else {
                assert(before.contains(v[i]));
                assert(has_task(v, h.task_id));
                let n = choose|n: int| 0 <= n < before.len() && before[n] == v[i];
                assert(before[n].task_id == h.task_id);
                let m = handler_from(before, h.task_id, 0)->0;
                assert(m == n) by {
                    if m < n {
                        assert(before[m].task_id != before[n].task_id);
                    } else if n < m {
                        assert(before[n].task_id != before[m].task_id);
                    }
                }
                assert(after[n] == in_both(v[i], h.confidence));
            }
        }
        assert forall|j: int| 0 <= j < k && !has_task(v, (#[trigger] s[j]).task_id) implies after.contains(
            s[j],
        ) by {
            if j < k - 1 {
                assert(s[j].task_id != s[k - 1].task_id);
                assert(before.contains(s[j]));
            } else {
                assert(handler_from(before, h.task_id, 0) is None) by {
                    if handler_from(before, h.task_id, 0) is Some {
                        let m = handler_from(before, h.task_id, 0)->0;
                        assert(before[m].task_id == h.task_id);
                        assert(has_task(before, h.task_id));
                    }
                }
                assert(after[before.len() as int] == h);
            }
        }
    }
}

/// What merging makes of each handler: one found only by pattern stays, one
/// found only by meaning is taken over, and one found both ways is raised. Of
/// several by pattern the last counts.
#[verifier::rlimit(40)]
pub proof fn merging_treats_each_task(p: Seq<HandlerView>, s: Seq<HandlerView>)
    requires
        s.len() > 0,
        one_each(s),
    ensures
        is_ranked(merged(p, s)),
        forall|i: int|
            is_last(p, i) && !has_task(s, (#[trigger] p[i]).task_id) ==> merged(p, s).contains(p[i]),
        forall|i: int, j: int|
            is_last(p, i) && 0 <= j < s.len() && (#[trigger] p[i]).task_id == (
            #[trigger] s[j]).task_id ==> merged(p, s).contains(in_both(p[i], s[j].confidence)),
        forall|j: int|
            0 <= j < s.len() && !has_task(p, (#[trigger] s[j]).task_id) ==> merged(p, s).contains(
                s[j],
            ),
{
    let n = p.len() as int;
    let v = last_of_each(p, n);
    let all = joined_all(v, s, s.len() as int);
    lemma_last_of_each(p, n);
    lemma_joined_members(v, s, s.len() as int);
    ranking_is_sorted(all);
    lemma_ranked_holds(all);
    assert(s.subrange(0, s.len() as int) =~= s);
    assert(p.subrange(0, n) =~= p);
    assert forall|i: int| is_last(p, i) && !has_task(s, (#[trigger] p[i]).task_id) implies merged(
        p,
        s,
    ).contains(p[i]) by {
        lemma_last_is_kept(p, n, i);
        let k = choose|k: int| 0 <= k < v.len() && v[k] == p[i];
        assert(all.contains(v[k]));
    }
    assert forall|i: int, j: int|
        is_last(p, i) && 0 <= j < s.len() && (#[trigger] p[i]).task_id == (#[trigger] s[j]).task_id implies merged(
        p,
        s,
    ).contains(in_both(p[i], s[j].confidence)) by {
        lemma_last_is_kept(p, n, i);
        let k = choose|k: int| 0 <= k < v.len() && v[k] == p[i];
        assert(v[k].task_id == s[j].task_id);
        assert(all.contains(in_both(v[k], s[j].confidence)));
    }
    assert forall|j: int| 0 <= j < s.len() && !has_task(p, (#[trigger] s[j]).task_id) implies merged(
        p,
        s,
    ).contains(s[j]) by {
        lemma_last_tasks(p, n, s[j].task_id);
        assert(all.contains(s[j]));
    }
}

/// The plan: nothing without handlers, and else one step for the first handler
/// that asks for the action of the intent.
pub proof fn plan_asks_the_first(plan: Seq<IntentStep>, intent: Intent, handlers: Seq<HandlerView>)
    requires
        is_plan(plan, intent, handlers),
    ensures
        handlers.len() == 0 ==> plan.len() == 0,
        handlers.len() > 0 ==> plan.len() == 1 && plan[0].handler == handlers[0].task_id
            && plan[0].action@ == action_name(intent) && plan[0].data is None,
{
}

/// An application is found under its task at the first place that has it.
pub proof fn applications_are_found(caps: Seq<Capability>, task: TaskId)
    ensures
        match task_from(caps, task, 0) {
            Some(i) => 0 <= i < caps.len() && caps[i].task_id == task && forall|k: int|
                0 <= k < i ==> (#[trigger] caps[k]).task_id != task,
            None => forall|k: int| 0 <= k < caps.len() ==> (#[trigger] caps[k]).task_id != task,
        },
{
    lemma_found_task(caps, task, 0);
}

proof fn lemma_found_task(caps: Seq<Capability>, task: TaskId, i: int)
    requires
        0 <= i,
    ensures
        match task_from(caps, task, i) {
            Some(n) => i <= n < caps.len() && caps[n].task_id == task && forall|k: int|
                i <= k < n ==> (#[trigger] caps[k]).task_id != task,
            None => forall|k: int| i <= k < caps.len() ==> (#[trigger] caps[k]).task_id != task,
        },
    decreases caps.len() - i,
{
    if i < caps.len() && caps[i].task_id != task {
        lemma_found_task(caps, task, i + 1);
    }
}

/// A handler says of an application its task, its name and its actions.
pub proof fn handlers_stand_for_applications(cap: CapabilityView, confidence: int)
    ensures
        cap.handler(confidence).task_id == cap.task_id,
        cap.handler(confidence).task_name == cap.task_name,
        cap.handler(confidence).capabilities == cap.actions,
        cap.handler(confidence).confidence == confidence,
{
}

} // verus!
