//! Routing by meaning: descriptions that are embedded as vectors, and the
//! choice of handlers by how similar the vectors are. Vectors and similarities
//! are computed outside; a similarity is a number of millionths.
use vstd::prelude::*;
use vstd::string::*;

use crate::intent_router::{find_task, handler_views, task_from};
use crate::intent_types::{
    Capability, CapabilityView, Handler, HandlerView, Intent, TaskId, FULL_CONFIDENCE,
};
use crate::tokenizer::texts;

verus! {

broadcast use vstd::seq_lib::group_seq_properties;

/// Numbers of an embedding.
pub const EMBEDDING_DIM: usize = 384;

/// How many of the most similar applications are looked at.
pub const TOP_MATCHES: usize = 5;

/// The lowest similarity that counts.
pub const MIN_SIMILARITY: i64 = 300_000;

// ---------------------------------------------------------------------
// Descriptions
// ---------------------------------------------------------------------

/// The first `k` texts with a separator between them.
pub open spec fn joined_texts(v: Seq<Seq<char>>, sep: Seq<char>, k: int) -> Seq<char>
    decreases k,
{
    if k <= 0 {
        Seq::empty()
    } else if k == 1 {
        v[0]
    } else {
        joined_texts(v, sep, k - 1) + sep + v[k - 1]
    }
}

/// All texts with a separator between them.
pub open spec fn join_all(v: Seq<Seq<char>>, sep: Seq<char>) -> Seq<char> {
    joined_texts(v, sep, v.len() as int)
}

pub fn join_texts(v: &Vec<String>, sep: &str) -> (r: String)
    ensures
        r@ == join_all(texts(v@), sep@),
{
    let mut out = String::new();
    let mut k: usize = 0;
    assert(out@ =~= Seq::<char>::empty());
    while k < v.len()
        invariant
            k <= v@.len(),
            out@ == joined_texts(texts(v@), sep@, k as int),
        decreases v@.len() - k,
    {
        if k > 0 {
            out.push_str(sep);
        }
        out.push_str(v[k].as_str());
        assert(texts(v@)[k as int] == v@[k as int]@);
        k = k + 1;
        assert(out@ =~= joined_texts(texts(v@), sep@, k as int));
    }
    out
}

/// A part of a description, where there is something to list.
pub open spec fn part(v: Seq<Seq<char>>, before: Seq<char>, after: Seq<char>) -> Seq<char> {
    if v.len() == 0 {
        Seq::empty()
    } else {
        ". "@ + before + join_all(v, ", "@) + after
    }
}

/// An application in words: its name, what it can do, the files that it
/// handles, and its tags.
pub open spec fn description(cap: CapabilityView) -> Seq<char> {
    cap.task_name + part(cap.actions, "can "@, ""@) + part(
        cap.file_types,
        "handles "@,
        " files"@,
    ) + part(cap.tags, "tags: "@, ""@)
}

fn push_part(out: &mut String, v: &Vec<String>, before: &str, after: &str)
    ensures
        final(out)@ == old(out)@ + part(texts(v@), before@, after@),
{
    if v.len() > 0 {
        let listed = join_texts(v, ", ");
        out.push_str(". ");
        out.push_str(before);
        out.push_str(listed.as_str());
        out.push_str(after);
        assert(out@ =~= old(out)@ + part(texts(v@), before@, after@));
    } else {
        assert(out@ =~= old(out)@ + part(texts(v@), before@, after@));
    }
}

pub fn build_capability_description(cap: &Capability) -> (r: String)
    ensures
        r@ == description(cap@),
{
    let mut out = cap.task_name.as_str().to_owned();
    push_part(&mut out, &cap.actions, "can ", "");
    push_part(&mut out, &cap.file_types, "handles ", " files");
    push_part(&mut out, &cap.tags, "tags: ", "");
    assert(out@ =~= description(cap@));
    out
}

/// An intent in words.
pub open spec fn query_text(intent: Intent) -> Seq<char> {
    match intent {
        Intent::OpenFile { query, .. } => "open file "@ + query@,
        Intent::SendMessage { text, recipients, .. } => "send message '"@ + text@ + "' to "@
            + join_all(texts(recipients@), ", "@),
        Intent::RunCommand { command, args, .. } => "run command "@ + command@ + " "@ + join_all(
            texts(args@),
            " "@,
        ),
        Intent::Transform { from_format, to_format, operation, .. } => match operation {
            Some(op) => op@ + " from "@ + from_format@ + " to "@ + to_format@,
            None => "convert"@ + " from "@ + from_format@ + " to "@ + to_format@,
        },
        Intent::Create { content_type, initial_content, .. } => match initial_content {
            Some(content) => "create "@ + content_type@ + " with content '"@ + content@ + "'"@,
            None => "create "@ + content_type@,
        },
        Intent::Search { query, .. } => "search for "@ + query@,
    }
}

pub fn intent_to_query(intent: &Intent) -> (r: String)
    ensures
        r@ == query_text(*intent),
{
    match intent {
        Intent::OpenFile { query, .. } => {
            let mut out = "open file ".to_owned();
            out.push_str(query.as_str());
            out
        },
        Intent::SendMessage { text, recipients, .. } => {
            let mut out = "send message '".to_owned();
            out.push_str(text.as_str());
            out.push_str("' to ");
            let listed = join_texts(recipients, ", ");
            out.push_str(listed.as_str());
            out
        },
        Intent::RunCommand { command, args, .. } => {
            let mut out = "run command ".to_owned();
            out.push_str(command.as_str());
            out.push_str(" ");
            let listed = join_texts(args, " ");
            out.push_str(listed.as_str());
            out
        },
        Intent::Transform { from_format, to_format, operation, .. } => {
            let mut out = match operation {
                Some(op) => op.as_str().to_owned(),
                None => "convert".to_owned(),
            };
            out.push_str(" from ");
            out.push_str(from_format.as_str());
            out.push_str(" to ");
            out.push_str(to_format.as_str());
            out
        },
        Intent::Create { content_type, initial_content, .. } => {
            let mut out = "create ".to_owned();
            out.push_str(content_type.as_str());
            match initial_content {
                Some(content) => {
                    out.push_str(" with content '");
                    out.push_str(content.as_str());
                    out.push_str("'");
                },
                None => {},
            }
            out
        },
        Intent::Search { query, .. } => {
            let mut out = "search for ".to_owned();
            out.push_str(query.as_str());
            out
        },
    }
}

// ---------------------------------------------------------------------
// Embedded applications
// ---------------------------------------------------------------------

/// Whether a vector has the dimension of an embedding.
pub fn is_embedding(len: usize) -> (r: bool)
    ensures
        r == (len == EMBEDDING_DIM),
{
    len == EMBEDDING_DIM
}

/// An application that was embedded. The numbers of the vector are IEEE 754
/// bit patterns.
pub struct EmbeddedTask {
    pub task_id: TaskId,
    pub description: String,
    pub embedding: Vec<u32>,
}

/// What an embedded application is.
pub struct EmbeddedView {
    pub task_id: TaskId,
    pub description: Seq<char>,
    pub embedding: Seq<u32>,
}

impl View for EmbeddedTask {
    type V = EmbeddedView;

    open spec fn view(&self) -> EmbeddedView {
        EmbeddedView {
            task_id: self.task_id,
            description: self.description@,
            embedding: self.embedding@,
        }
    }
}

/// The embedded applications, one entry per task.
pub struct SemanticRouter {
    pub tasks: Vec<EmbeddedTask>,
}

/// The place of a task from `i` on.
pub open spec fn embedded_from(v: Seq<EmbeddedTask>, task: TaskId, i: int) -> Option<int>
    decreases v.len() - i,
{
    if i >= v.len() {
        None
    } else if v[i].task_id == task {
        Some(i)
    } else {
        embedded_from(v, task, i + 1)
    }
}

proof fn lemma_embedded_from(v: Seq<EmbeddedTask>, task: TaskId, i: int)
    requires
        0 <= i,
    ensures
        match embedded_from(v, task, i) {
            Some(k) => i <= k < v.len() && v[k].task_id == task,
            None => forall|k: int| i <= k < v.len() ==> (#[trigger] v[k]).task_id != task,
        },
    decreases v.len() - i,
{
    if i < v.len() && v[i].task_id != task {
        lemma_embedded_from(v, task, i + 1);
    }
}

pub open spec fn embedded_views(v: Seq<EmbeddedTask>) -> Seq<EmbeddedView> {
    v.map_values(|t: EmbeddedTask| t@)
}

/// The tasks with their similarities.
pub open spec fn scored(v: Seq<EmbeddedTask>, similarities: Seq<i64>, k: int) -> Seq<
    (TaskId, i64),
>
    decreases k,
{
    if k <= 0 {
        Seq::empty()
    } else {
        scored(v, similarities, k - 1).push((v[k - 1].task_id, similarities[k - 1]))
    }
}

/// The place of a similarity in a ranking: behind all that are no lower,
/// looked at from `i` on.
pub open spec fn score_place(v: Seq<(TaskId, i64)>, similarity: i64, i: int) -> int
    decreases v.len() - i,
{
    if i >= v.len() || v[i].1 < similarity {
        i
    } else {
        score_place(v, similarity, i + 1)
    }
}

/// Tasks from the most similar one down. Equally similar ones keep their
/// order.
pub open spec fn by_similarity(v: Seq<(TaskId, i64)>) -> Seq<(TaskId, i64)>
    decreases v.len(),
{
    if v.len() == 0 {
        Seq::empty()
    } else {
        let before = by_similarity(v.drop_last());
        before.insert(score_place(before, v.last().1, 0), v.last())
    }
}

pub open spec fn is_falling(v: Seq<(TaskId, i64)>) -> bool {
    forall|i: int, j: int| 0 <= i < j < v.len() ==> (#[trigger] v[i]).1 >= (#[trigger] v[j]).1
}

proof fn lemma_score_place(v: Seq<(TaskId, i64)>, similarity: i64, i: int)
    requires
        0 <= i <= v.len(),
        is_falling(v),
        forall|k: int| 0 <= k < i ==> (#[trigger] v[k]).1 >= similarity,
    ensures
        i <= score_place(v, similarity, i) <= v.len(),
        forall|k: int| 0 <= k < score_place(v, similarity, i) ==> (#[trigger] v[k]).1 >= similarity,
        forall|k: int|
            score_place(v, similarity, i) <= k < v.len() ==> (#[trigger] v[k]).1 < similarity,
    decreases v.len() - i,
{
    if i < v.len() && v[i].1 >= similarity {
        lemma_score_place(v, similarity, i + 1);
    }
}

/// The tasks by similarity are the same tasks, and the similarities fall.
pub proof fn similarities_fall(v: Seq<(TaskId, i64)>)
    ensures
        is_falling(by_similarity(v)),
        by_similarity(v).len() == v.len(),
        by_similarity(v).to_multiset() == v.to_multiset(),
    decreases v.len(),
{
    if v.len() == 0 {
        assert(by_similarity(v) =~= v);
    } else {
        let rest = v.drop_last();
        let before = by_similarity(rest);
        similarities_fall(rest);
        let p = score_place(before, v.last().1, 0);
        lemma_score_place(before, v.last().1, 0);
        let after = before.insert(p, v.last());
        assert forall|i: int, j: int| 0 <= i < j < after.len() implies (#[trigger] after[i]).1 >= (
        #[trigger] after[j]).1 by {
            let a = if i < p {
                before[i]
            } else if i == p {
                v.last()
            } else {
                before[i - 1]
            };
            let b = if j < p {
                before[j]
            } else if j == p {
                v.last()
            } else {
                before[j - 1]
            };
            assert(after[i] == a && after[j] == b);
        }
        broadcast use vstd::seq_lib::group_to_multiset_ensures;

        assert(after.to_multiset() =~= before.to_multiset().insert(v.last()));
        assert(v =~= rest.push(v.last()));
        assert(v.to_multiset() =~= rest.to_multiset().insert(v.last()));
    }
}

/// A similarity as a confidence.
pub open spec fn confidence_of(similarity: i64) -> int {
    if similarity <= FULL_CONFIDENCE {
        similarity as int
    } else {
        FULL_CONFIDENCE as int
    }
}

/// The handlers among the first `k` tasks: those similar enough whose
/// application is registered.
pub open spec fn similar_handlers(v: Seq<(TaskId, i64)>, caps: Seq<Capability>, k: int) -> Seq<
    HandlerView,
>
    decreases k,
{
    if k <= 0 {
        Seq::empty()
    } else {
        let before = similar_handlers(v, caps, k - 1);
        let (task, similarity) = v[k - 1];
        if similarity < MIN_SIMILARITY {
            before
        } else {
            match task_from(caps, task, 0) {
                Some(i) => before.push(caps[i]@.handler(confidence_of(similarity))),
                None => before,
            }
        }
    }
}

/// How many tasks are looked at.
pub open spec fn looked_at(n: int) -> int {
    if n <= TOP_MATCHES {
        n
    } else {
        TOP_MATCHES as int
    }
}

fn place_score(v: &mut Vec<(TaskId, i64)>, task: TaskId, similarity: i64)
    ensures
        final(v)@ == old(v)@.insert(score_place(old(v)@, similarity, 0), (task, similarity)),
        final(v)@.len() == old(v)@.len() + 1,
{
    let mut i: usize = 0;
    while i < v.len() && v[i].1 >= similarity
        invariant
            i <= v@.len(),
            v@ == old(v)@,
            score_place(v@, similarity, 0) == score_place(v@, similarity, i as int),
        ensures
            i <= v@.len(),
            v@ == old(v)@,
            score_place(v@, similarity, 0) == i,
        decreases v@.len() - i,
    {
        i = i + 1;
    }
    v.insert(i, (task, similarity));
}

impl SemanticRouter {
    /// No task has two entries.
    pub open spec fn wf(self) -> bool {
        forall|i: int, j: int|
            0 <= i < j < self.tasks@.len() ==> (#[trigger] self.tasks@[i]).task_id != (
            #[trigger] self.tasks@[j]).task_id
    }

    pub fn new() -> (r: Self)
        ensures
            r.wf(),
            r.tasks@ == Seq::<EmbeddedTask>::empty(),
    {
        SemanticRouter { tasks: Vec::new() }
    }

    fn find(&self, task: TaskId) -> (r: Option<usize>)
        ensures
            match (r, embedded_from(self.tasks@, task, 0)) {
                (Some(a), Some(b)) => a == b && a < self.tasks@.len(),
                (None, None) => true,
                _ => false,
            },
    {
        let mut i: usize = 0;
        while i < self.tasks.len()
            invariant
                i <= self.tasks@.len(),
                embedded_from(self.tasks@, task, 0) == embedded_from(self.tasks@, task, i as int),
            decreases self.tasks@.len() - i,
        {
            if self.tasks[i].task_id == task {
                return Some(i);
            }
            i = i + 1;
        }
        None
    }

    /// Keeps the embedding of an application's description, in the place of
    /// one that its task had. Without an embedding everything stays.
    pub fn register_capability(&mut self, capability: &Capability, embedding: Option<Vec<u32>>)
        requires
            old(self).wf(),
        ensures
            final(self).wf(),
            match embedding {
                None => final(self).tasks@ == old(self).tasks@,
                Some(e) => {
                    let entry = EmbeddedView {
                        task_id: capability.task_id,
                        description: description(capability@),
                        embedding: e@,
                    };
                    match embedded_from(old(self).tasks@, capability.task_id, 0) {
                        Some(i) => embedded_views(final(self).tasks@) == embedded_views(
                            old(self).tasks@,
                        ).update(i, entry),
                        None => embedded_views(final(self).tasks@) == embedded_views(
                            old(self).tasks@,
                        ).push(entry),
                    }
                },
            },
    {
        let ghost before = self.tasks@;
        proof {
            lemma_embedded_from(before, capability.task_id, 0);
        }
        match embedding {
            None => {},
            Some(e) => {
                let entry = EmbeddedTask {
                    task_id: capability.task_id,
                    description: build_capability_description(capability),
                    embedding: e,
                };
                let ghost seen = entry@;
                match self.find(capability.task_id) {
                    Some(i) => {
                        self.tasks.set(i, entry);
                        assert forall|a: int, b: int| 0 <= a < b < self.tasks@.len() implies (
                        #[trigger] self.tasks@[a]).task_id != (#[trigger] self.tasks@[b]).task_id by {
                            assert(self.tasks@[a].task_id == before[a].task_id);
                            assert(self.tasks@[b].task_id == before[b].task_id);
                        }
                        assert(embedded_views(self.tasks@) =~= embedded_views(before).update(
                            i as int,
                            seen,
                        ));
                    },
                    None => {
                        self.tasks.push(entry);
                        assert forall|a: int, b: int| 0 <= a < b < self.tasks@.len() implies (
                        #[trigger] self.tasks@[a]).task_id != (#[trigger] self.tasks@[b]).task_id by {
                            assert(self.tasks@[a] == before[a]);
                            if b < before.len() {
                                assert(self.tasks@[b] == before[b]);
                            }
                        }
                        assert(embedded_views(self.tasks@) =~= embedded_views(before).push(seen));
                    },
                }
            },
        }
    }

    /// Forgets an application.
    pub fn unregister_capability(&mut self, task_id: TaskId)
        requires
            old(self).wf(),
        ensures
            final(self).wf(),
            match embedded_from(old(self).tasks@, task_id, 0) {
                Some(i) => final(self).tasks@ == old(self).tasks@.remove(i),
                None => final(self).tasks@ == old(self).tasks@,
            },
    {
        let ghost before = self.tasks@;
        match self.find(task_id) {
            Some(i) => {
                self.tasks.remove(i);
                assert forall|a: int, b: int| 0 <= a < b < self.tasks@.len() implies (
                #[trigger] self.tasks@[a]).task_id != (#[trigger] self.tasks@[b]).task_id by {
                    let x = if a < i {
                        a
                    } else {
                        a + 1
                    };
                    let y = if b < i {
                        b
                    } else {
                        b + 1
                    };
                    assert(self.tasks@[a] == before[x] && self.tasks@[b] == before[y]);
                }
            },
            None => {},
        }
    }

    /// The handlers by meaning, given the similarity of each embedded
    /// application to the intent.
    pub open spec fn matches_for(self, similarities: Seq<i64>, caps: Seq<Capability>) -> Seq<
        HandlerView,
    > {
        similar_handlers(
            by_similarity(scored(self.tasks@, similarities, self.tasks@.len() as int)),
            caps,
            looked_at(self.tasks@.len() as int),
        )
    }

    /// The handlers by meaning: of the most similar applications, those that
    /// are similar enough and registered. Without similarities there are none.
    pub fn match_intent(&self, similarities: Option<&[i64]>, caps: &Vec<Capability>) -> (r: Vec<
        Handler,
    >)
        requires
            similarities matches Some(s) ==> s@.len() == self.tasks@.len(),
        ensures
            handler_views(r@) == (match similarities {
                Some(s) => self.matches_for(s@, caps@),
                None => Seq::empty(),
            }),
            r@.len() <= TOP_MATCHES,
            forall|i: int| 0 <= i < r@.len() ==> (#[trigger] r@[i]).confidence <= FULL_CONFIDENCE,
    {
        let mut out: Vec<Handler> = Vec::new();
        assert(handler_views(out@) =~= Seq::<HandlerView>::empty());
        match similarities {
            None => out,
            Some(s) => {
                let n: usize = self.tasks.len();
                let mut order: Vec<(TaskId, i64)> = Vec::new();
                let mut k: usize = 0;
                while k < n
                    invariant
                        k <= n,
                        n == self.tasks@.len(),
                        s@.len() == n,
                        order@.len() == k,
                        order@ == by_similarity(scored(self.tasks@, s@, k as int)),
                    decreases n - k,
                {
                    let ghost before = scored(self.tasks@, s@, k as int);
                    place_score(&mut order, self.tasks[k].task_id, s[k]);
                    assert(before.push((self.tasks@[k as int].task_id, s@[k as int])).drop_last()
                        =~= before);
                    k = k + 1;
                }
                let most: usize = if n <= TOP_MATCHES {
                    n
                } else {
                    TOP_MATCHES
                };
                let mut k: usize = 0;
                while k < most
                    invariant
                        k <= most,
                        most == looked_at(order@.len() as int),
                        out@.len() <= k,
                        handler_views(out@) == similar_handlers(order@, caps@, k as int),
                        forall|i: int|
                            0 <= i < out@.len() ==> (#[trigger] out@[i]).confidence
                                <= FULL_CONFIDENCE,
                    decreases most - k,
                {
                    let task: TaskId = order[k].0;
                    let similarity: i64 = order[k].1;
                    if similarity >= MIN_SIMILARITY {
                        match find_task(caps, task) {
                            Some(i) => {
                                let confidence: u64 = if similarity as u64 <= FULL_CONFIDENCE {
                                    similarity as u64
                                } else {
                                    FULL_CONFIDENCE
                                };
                                let h = caps[i].to_handler(confidence);
                                let ghost had = out@;
                                let ghost hv = h@;
                                out.push(h);
                                assert(handler_views(out@) =~= handler_views(had).push(hv));
                            },
                            None => {},
                        }
                    }
                    k = k + 1;
                }
                out
            },
        }
    }
}

/// Every handler by meaning is a registered application with at least the
/// lowest similarity, and there are no more than the most similar ones.
pub proof fn matches_are_similar(v: Seq<(TaskId, i64)>, caps: Seq<Capability>, k: int)
    requires
        0 <= k <= v.len(),
    ensures
        similar_handlers(v, caps, k).len() <= k,
        forall|i: int|
            0 <= i < similar_handlers(v, caps, k).len() ==> MIN_SIMILARITY <= (
            #[trigger] similar_handlers(v, caps, k)[i]).confidence <= FULL_CONFIDENCE,
    decreases k,
{
    if k > 0 {
        matches_are_similar(v, caps, k - 1);
        let before = similar_handlers(v, caps, k - 1);
        let all = similar_handlers(v, caps, k);
        assert forall|i: int| 0 <= i < all.len() implies MIN_SIMILARITY <= (
        #[trigger] all[i]).confidence <= FULL_CONFIDENCE by {
            if i < before.len() {
                assert(all[i] == before[i]);
            }
        }
    }
}

/// A description names the application.
pub proof fn description_starts_with_the_name(cap: CapabilityView)
    ensures
        cap.task_name.is_prefix_of(description(cap)),
{
    assert(cap.task_name =~= description(cap).subrange(0, cap.task_name.len() as int));
}

/// Texts are joined by putting the separator between each two: nothing of
/// nothing, a single one as it is, and one more behind the others.
pub proof fn joining_puts_separators_between(
    v: Seq<Seq<char>>,
    sep: Seq<char>,
    last: Seq<char>,
)
    ensures
        join_all(Seq::empty(), sep).len() == 0,
        join_all(seq![last], sep) == last,
        v.len() > 0 ==> join_all(v.push(last), sep) == join_all(v, sep) + sep + last,
{
    if v.len() > 0 {
        lemma_joined_front(v, sep, last, v.len() as int);
    }
}

proof fn lemma_joined_front(v: Seq<Seq<char>>, sep: Seq<char>, last: Seq<char>, k: int)
    requires
        0 <= k <= v.len(),
    ensures
        joined_texts(v.push(last), sep, k) == joined_texts(v, sep, k),
    decreases k,
{
    if k > 1 {
        lemma_joined_front(v, sep, last, k - 1);
    }
}

/// What a description says of an application that declares one thing of each
/// kind, and of one that declares nothing.
#[verifier::rlimit(40)]
pub proof fn descriptions_in_words(
    name: Seq<char>,
    task: TaskId,
    action: Seq<char>,
    ty: Seq<char>,
    tag: Seq<char>,
)
    ensures
        description(
            CapabilityView {
                task_id: task,
                task_name: name,
                actions: seq![action],
                file_types: seq![ty],
                tags: seq![tag],
            },
        ) == name + ". can "@ + action + ". handles "@ + ty + " files. tags: "@ + tag,
        description(
            CapabilityView {
                task_id: task,
                task_name: name,
                actions: Seq::empty(),
                file_types: Seq::empty(),
                tags: Seq::empty(),
            },
        ) == name,
{
    reveal_strlit(". ");
    reveal_strlit("can ");
    reveal_strlit(". can ");
    reveal_strlit("");
    reveal_strlit("handles ");
    reveal_strlit(". handles ");
    reveal_strlit(" files");
    reveal_strlit("tags: ");
    reveal_strlit(" files. tags: ");
    joining_puts_separators_between(Seq::empty(), ", "@, action);
    joining_puts_separators_between(Seq::empty(), ", "@, ty);
    joining_puts_separators_between(Seq::empty(), ", "@, tag);
    let full = CapabilityView {
        task_id: task,
        task_name: name,
        actions: seq![action],
        file_types: seq![ty],
        tags: seq![tag],
    };
    let none = CapabilityView {
        task_id: task,
        task_name: name,
        actions: Seq::empty(),
        file_types: Seq::empty(),
        tags: Seq::empty(),
    };
    assert(part(full.actions, "can "@, ""@) =~= ". can "@ + action);
    assert(part(full.file_types, "handles "@, " files"@) =~= ". handles "@ + ty + " files"@);
    assert(part(full.tags, "tags: "@, ""@) =~= ". tags: "@ + tag) by {
        reveal_strlit(". tags: ");
    }
    reveal_strlit(". tags: ");
    assert(" files. tags: "@ =~= " files"@ + ". tags: "@);
    assert(description(full) =~= name + ". can "@ + action + ". handles "@ + ty
        + " files. tags: "@ + tag);
    assert(description(none) =~= name);
}

/// The query of an intent names what is asked for.
pub proof fn queries_in_words(intent: Intent)
    ensures
        intent matches Intent::OpenFile { query, .. } ==> query_text(intent) == "open file "@
            + query@,
        intent matches Intent::Search { query, .. } ==> query_text(intent) == "search for "@
            + query@,
        intent matches Intent::Create { content_type, initial_content, .. } ==> (
        initial_content is None ==> query_text(intent) == "create "@ + content_type@) && (
        initial_content matches Some(c) ==> query_text(intent) == "create "@ + content_type@
            + " with content '"@ + c@ + "'"@),
        intent matches Intent::RunCommand { command, args, .. } ==> query_text(intent)
            == "run command "@ + command@ + " "@ + join_all(texts(args@), " "@),
        intent matches Intent::SendMessage { text, recipients, .. } ==> query_text(intent)
            == "send message '"@ + text@ + "' to "@ + join_all(texts(recipients@), ", "@),
        intent matches Intent::Transform { from_format, to_format, operation, .. } ==> (
        operation matches Some(op) ==> query_text(intent) == op@ + " from "@ + from_format@ + " to "@
            + to_format@) && (operation is None ==> query_text(intent) == "convert"@ + " from "@
            + from_format@ + " to "@ + to_format@),
{
}

proof fn lemma_scored(v: Seq<EmbeddedTask>, similarities: Seq<i64>, k: int)
    requires
        0 <= k,
    ensures
        scored(v, similarities, k).len() == k,
        forall|i: int|
            0 <= i < k ==> #[trigger] scored(v, similarities, k)[i] == (
                v[i].task_id,
                similarities[i],
            ),
    decreases k,
{
    if k > 0 {
        lemma_scored(v, similarities, k - 1);
    }
}

#[verifier::rlimit(40)]
proof fn lemma_similar_members(v: Seq<(TaskId, i64)>, caps: Seq<Capability>, k: int)
    requires
        0 <= k <= v.len(),
    ensures
        forall|i: int|
            0 <= i < k && (#[trigger] v[i]).1 >= 300_000 && task_from(caps, v[i].0, 0) is Some
                ==> similar_handlers(v, caps, k).contains(
                caps[task_from(caps, v[i].0, 0)->0]@.handler(
                    if v[i].1 <= 1_000_000 {
                        v[i].1 as int
                    } else {
                        1_000_000
                    },
                ),
            ),
        forall|h: HandlerView| #[trigger]
            similar_handlers(v, caps, k).contains(h) ==> exists|i: int|
                0 <= i < k && (#[trigger] v[i]).1 >= 300_000 && task_from(caps, v[i].0, 0) is Some
                    && h == caps[task_from(caps, v[i].0, 0)->0]@.handler(
                    if v[i].1 <= 1_000_000 {
                        v[i].1 as int
                    } else {
                        1_000_000
                    },
                ),
    decreases k,
{
    if k > 0 {
        lemma_similar_members(v, caps, k - 1);
        let before = similar_handlers(v, caps, k - 1);
        let after = similar_handlers(v, caps, k);
        if v[k - 1].1 >= 300_000 && task_from(caps, v[k - 1].0, 0) is Some {
            let h = caps[task_from(caps, v[k - 1].0, 0)->0]@.handler(
                if v[k - 1].1 <= 1_000_000 {
                    v[k - 1].1 as int
                } else {
                    1_000_000
                },
            );
            assert(after == before.push(h));
            assert(after[before.len() as int] == h);
            assert forall|x: HandlerView| before.contains(x) implies #[trigger] after.contains(x) by {
                let j = choose|j: int| 0 <= j < before.len() && before[j] == x;
                assert(after[j] == x);
            }
            assert forall|x: HandlerView| #[trigger] after.contains(x) implies before.contains(x) || x
                == h by {
                let j = choose|j: int| 0 <= j < after.len() && after[j] == x;
                if j < before.len() {
                    assert(before[j] == x);
                }
            }
            assert(v[k - 1].1 >= 300_000);
        }
    }
}

/// The handlers by meaning: of the five most similar applications each one that
/// is registered and has a similarity of 0.3 at least, with its similarity as
/// confidence, and no other.
#[verifier::rlimit(40)]
pub proof fn the_most_similar_handle(
    router: SemanticRouter,
    similarities: Seq<i64>,
    caps: Seq<Capability>,
)
    requires
        similarities.len() == router.tasks@.len(),
    ensures
        ({
            let n = router.tasks@.len() as int;
            let all = Seq::new(n as nat, |i: int| (router.tasks@[i].task_id, similarities[i]));
            let v = by_similarity(all);
            let k = if n <= 5 {
                n
            } else {
                5
            };
            let r = router.matches_for(similarities, caps);
            &&& is_falling(v)
            &&& v.to_multiset() == all.to_multiset()
            &&& forall|i: int|
                0 <= i < k && (#[trigger] v[i]).1 >= 300_000 && task_from(caps, v[i].0, 0) is Some
                    ==> r.contains(
                    caps[task_from(caps, v[i].0, 0)->0]@.handler(
                        if v[i].1 <= 1_000_000 {
                            v[i].1 as int
                        } else {
                            1_000_000
                        },
                    ),
                )
            &&& forall|h: HandlerView| #[trigger]
                r.contains(h) ==> exists|i: int|
                    0 <= i < k && (#[trigger] v[i]).1 >= 300_000 && task_from(caps, v[i].0, 0) is Some
                        && h == caps[task_from(caps, v[i].0, 0)->0]@.handler(
                        if v[i].1 <= 1_000_000 {
                            v[i].1 as int
                        } else {
                            1_000_000
                        },
                    )
        }),
{
    let n = router.tasks@.len() as int;
    let all = Seq::new(n as nat, |i: int| (router.tasks@[i].task_id, similarities[i]));
    lemma_scored(router.tasks@, similarities, n);
    assert(scored(router.tasks@, similarities, n) =~= all);
    similarities_fall(all);
    let k = if n <= 5 {
        n
    } else {
        5
    };
    lemma_similar_members(by_similarity(all), caps, k);
}

} // verus!
