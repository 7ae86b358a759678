//! One iteration of the self-improving loop: pick a task, ask the model, build
//! the answer, judge the build, and retry with the error. The caller performs
//! the exchanges and hands their results in.
use vstd::prelude::*;
use vstd::string::*;
use vstd::utf8::*;

use crate::draug::{
    model_for_level, next_skill, skills_are_breadth_first, DraugDaemon, TaskPlan,
    COMPLEX_TASK_COUNT, HIBERNATE_SKIPS, MAX_RETRIES, MAX_SKILL_LEVELS, TASK_COUNT,
};
use crate::friction::elapsed;
use crate::skill_prompt::{
    build_error_memory, build_level_prompt, build_retry_prompt, code_block, error_memory,
    extract_rust_code_block, level_prompt, opt_text, retry_prompt, REFACTOR_TASKS,
};
use crate::text::{is_blank, text_of};

verus! {

broadcast use vstd::seq_lib::group_seq_properties;

/// How long an answer of the proxy is trusted.
pub const PING_CACHE_MS: u64 = 60_000;

/// Iterations between looks at the memory.
pub const HEAP_CHECK_EVERY: u32 = 50;

/// Share of memory above which an iteration pauses.
pub const HEAP_PAUSE_PCT: u32 = 80;

/// Bytes of a reply that are looked at.
pub const REPLY_MAX: usize = 8192;

/// Bytes of build output that are looked at.
pub const OUTPUT_MAX: usize = 4096;

/// Bytes of build output that a retry carries.
pub const RETRY_OUTPUT: usize = 1024;

/// Bytes of build output that are remembered after a final failure.
pub const MEMORY_OUTPUT: usize = 512;

/// Bytes of build output in the log.
pub const LOG_OUTPUT: usize = 200;

/// A task at a level, under way.
pub struct RefactorRun {
    pub iter: u32,
    pub task_idx: usize,
    pub level: u8,
    /// Retries so far.
    pub attempt: u8,
}

/// How an iteration begins.
pub enum RefactorStart {
    /// The proxy does not answer. The iteration does not count.
    Unreachable,
    /// The skill tree is complete: a plan step is due. `entered` tells that
    /// plan mode has just begun and the state is to be saved.
    Plan { iter: u32, entered: bool },
    /// Memory is short. The iteration is given up.
    Paused,
    /// Ask the model for the level with this prompt.
    Ask { run: RefactorRun, prompt: String },
}

/// The reply of the model: a status and the bytes it sent.
pub struct Reply<'a> {
    pub status: u32,
    pub output: &'a [u8],
}

/// What follows from the reply of the model.
pub enum ReplyVerdict {
    /// The model is not available. This is no failure of the task.
    Skipped,
    /// The reply holds no code. The iteration failed.
    Failed,
    /// Build this code.
    Build { code: String },
}

/// What follows from a build.
pub enum BuildVerdict {
    /// The level is completed. `keep_code` tells that the code of the task is
    /// to be saved, besides the state.
    Passed { keep_code: bool },
    /// Ask again with this prompt.
    Retry { prompt: String },
    /// The iteration failed.
    Failed,
}

/// The first `n` bytes, or all where there are fewer.
pub open spec fn head(s: Seq<u8>, n: int) -> Seq<u8> {
    if s.len() <= n {
        s
    } else {
        s.subrange(0, n)
    }
}

/// The text of the bytes, empty where they are not UTF-8.
pub open spec fn text_or_nothing(s: Seq<u8>) -> Seq<char> {
    if valid_utf8(s) {
        decode_utf8(s)
    } else {
        Seq::empty()
    }
}

fn head_len(n: usize, cap: usize) -> (r: usize)
    ensures
        r == (if n <= cap {
            n
        } else {
            cap
        }),
{
    if n <= cap {
        n
    } else {
        cap
    }
}

/// The text of the first `cap` bytes, where they are UTF-8.
fn head_text(s: &[u8], cap: usize) -> (r: Option<String>)
    ensures
        match r {
            Some(t) => valid_utf8(head(s@, cap as int)) && t@ == decode_utf8(head(s@, cap as int)),
            None => !valid_utf8(head(s@, cap as int)),
        },
{
    let n: usize = head_len(s.len(), cap);
    assert(s@.subrange(0, n as int) =~= head(s@, cap as int));
    text_of(s, 0, n)
}

impl DraugDaemon {
    /// Whether the last answer of the proxy is missing, negative or too old.
    pub open spec fn ping_stale(self, uptime_ms: u64) -> bool {
        self.last_ping_ms == 0 || !self.last_ping_ok || elapsed(uptime_ms, self.last_ping_ms)
            > PING_CACHE_MS
    }

    /// The agent after a skipped iteration.
    pub open spec fn skipped(self) -> DraugDaemon {
        DraugDaemon {
            consecutive_skips: if self.consecutive_skips < u32::MAX {
                (self.consecutive_skips + 1) as u32
            } else {
                u32::MAX
            },
            refactor_hibernating: self.refactor_hibernating || self.consecutive_skips + 1
                >= HIBERNATE_SKIPS,
            ..self
        }
    }

    /// The agent after the proxy was looked at, where that was due.
    pub open spec fn pinged(self, now_ms: u64, uptime_ms: u64, reachable: bool) -> DraugDaemon {
        if self.ping_stale(uptime_ms) {
            DraugDaemon {
                last_refactor_ms: now_ms,
                last_ping_ms: uptime_ms,
                last_ping_ok: reachable,
                ..self
            }
        } else {
            DraugDaemon { last_refactor_ms: now_ms, ..self }
        }
    }

    /// The stored code of a task.
    pub open spec fn code_text(self, idx: int) -> Option<Seq<char>> {
        match self.task_code@[idx] {
            Some(c) => Some(c@),
            None => None,
        }
    }

    /// The remembered error of a task.
    pub open spec fn error_text(self, idx: int) -> Option<Seq<char>> {
        match self.task_errors@[idx] {
            Some(c) => Some(c@),
            None => None,
        }
    }

    /// The prompt for a task at a level, with the error that is remembered.
    pub open spec fn task_prompt(self, idx: int, level: u8) -> Seq<char> {
        level_prompt(
            level,
            REFACTOR_TASKS@[idx].0@,
            REFACTOR_TASKS@[idx].1@,
            self.code_text(idx),
        ) + error_memory(self.error_text(idx))
    }

    /// Whether the proxy must be looked at before an iteration.
    pub fn needs_ping(&self, uptime_ms: u64) -> (r: bool)
        ensures
            r == self.ping_stale(uptime_ms),
    {
        self.last_ping_ms == 0 || !self.last_ping_ok || uptime_ms.saturating_sub(self.last_ping_ms)
            > PING_CACHE_MS
    }

    /// Begins an iteration. `reachable` tells whether the proxy answered, where
    /// `needs_ping` asked for it; otherwise it is not looked at. `heap_pct` is
    /// looked at in every fiftieth iteration.
    pub fn run_refactor_step(
        &mut self,
        now_ms: u64,
        uptime_ms: u64,
        reachable: bool,
        heap_pct: u32,
    ) -> (r: RefactorStart)
        requires
            old(self).refactor_iter < u32::MAX || (old(self).ping_stale(uptime_ms) && !reachable),
        ensures
            ({
                let seen = old(self).pinged(now_ms, uptime_ms, reachable);
                let counted = DraugDaemon { refactor_iter: (seen.refactor_iter + 1) as u32, ..seen
                };
                if old(self).ping_stale(uptime_ms) && !reachable {
                    r is Unreachable && *final(self) == seen.skipped()
                } else {
                    match next_skill(old(self).task_levels@, 1) {
                        None => *final(self) == (DraugDaemon { plan_mode_active: true, ..counted })
                            && (r matches RefactorStart::Plan { iter, entered } && iter
                            == counted.refactor_iter && entered == !old(self).plan_mode_active),
                        Some((idx, level)) => *final(self) == counted && (if counted.refactor_iter
                            % HEAP_CHECK_EVERY == 0 && heap_pct > HEAP_PAUSE_PCT {
                            r is Paused
                        } else {
                            r matches RefactorStart::Ask { run, prompt } && run.iter
                                == counted.refactor_iter && run.task_idx == idx && run.level
                                == level && run.attempt == 0 && run.task_idx < TASK_COUNT
                                && prompt@ == old(self).task_prompt(idx, level as u8)
                        }),
                    }
                }
            }),
    {
        self.last_refactor_ms = now_ms;
        if self.needs_ping(uptime_ms) {
            self.last_ping_ms = uptime_ms;
            self.last_ping_ok = reachable;
            if !reachable {
                self.record_skip();
                return RefactorStart::Unreachable;
            }
        }
        let iter: u32 = self.advance_refactor(now_ms);
        match self.next_task_and_level() {
            None => {
                let entered: bool = !self.plan_mode_active;
                if entered {
                    self.plan_mode_active = true;
                }
                RefactorStart::Plan { iter, entered }
            },
            Some((task_idx, level)) => {
                let prompt = self.build_task_prompt(task_idx, level);
                if iter % HEAP_CHECK_EVERY == 0 && heap_pct > HEAP_PAUSE_PCT {
                    return RefactorStart::Paused;
                }
                RefactorStart::Ask {
                    run: RefactorRun { iter, task_idx, level, attempt: 0 },
                    prompt,
                }
            },
        }
    }

    fn build_task_prompt(&self, idx: usize, level: u8) -> (r: String)
        requires
            idx < TASK_COUNT,
        ensures
            r@ == self.task_prompt(idx as int, level),
    {
        let task: (&'static str, &'static str) = REFACTOR_TASKS[idx];
        let code = self.get_task_code(idx);
        let error = self.get_task_error(idx);
        assert(opt_text(code) == self.code_text(idx as int));
        assert(opt_text(error) == self.error_text(idx as int));
        let mut prompt = build_level_prompt(level, task.0, task.1, code);
        let memory = build_error_memory(error);
        prompt.push_str(memory.as_str());
        prompt
    }

    /// Judges the reply of the model; `None` is an exchange that failed.
    pub fn on_refactor_reply(&mut self, reply: Option<Reply>) -> (r: ReplyVerdict)
        requires
            old(self).refactor_failed < u32::MAX,
        ensures
            match reply {
                Some(a) => {
                    let bytes = head(a.output@, REPLY_MAX as int);
                    if a.status != 0 {
                        r is Skipped && *final(self) == old(self).skipped()
                    } else if !valid_utf8(bytes) || code_block(decode_utf8(bytes)).len() == 0 {
                        r is Failed && *final(self) == (DraugDaemon {
                            refactor_failed: (old(self).refactor_failed + 1) as u32,
                            ..*old(self)
                        })
                    } else {
                        (r matches ReplyVerdict::Build { code } && code@ == code_block(
                            decode_utf8(bytes),
                        )) && *final(self) == *old(self)
                    }
                },
                None => r is Skipped && *final(self) == old(self).skipped(),
            },
    {
        match reply {
            Some(a) => {
                if a.status != 0 {
                    self.record_skip();
                    return ReplyVerdict::Skipped;
                }
                let raw = match head_text(a.output, REPLY_MAX) {
                    Some(t) => t,
                    None => {
                        self.record_refactor_fail();
                        return ReplyVerdict::Failed;
                    },
                };
                let code = extract_rust_code_block(raw.as_str());
                if is_blank(code.as_str()) {
                    self.record_refactor_fail();
                    return ReplyVerdict::Failed;
                }
                ReplyVerdict::Build { code }
            },
            None => {
                self.record_skip();
                ReplyVerdict::Skipped
            },
        }
    }

    /// The agent after a passed level.
    pub open spec fn level_passed(self, next: DraugDaemon, run: RefactorRun, code: String) -> bool {
        let i = run.task_idx as int;
        &&& next == (DraugDaemon {
            refactor_passed: (self.refactor_passed + 1) as u32,
            task_levels: next.task_levels,
            task_errors: next.task_errors,
            task_code: next.task_code,
            consecutive_skips: 0,
            refactor_hibernating: false,
            ..self
        })
        &&& next.task_levels@ == (if self.task_levels@[i] < MAX_SKILL_LEVELS {
            self.task_levels@.update(i, (self.task_levels@[i] + 1) as u8)
        } else {
            self.task_levels@
        })
        &&& next.task_errors@ == self.task_errors@.update(i, None)
        &&& next.task_code@ == (if run.level == 1 {
            self.task_code@.update(i, Some(code))
        } else {
            self.task_code@
        })
    }

    /// Judges a build of `code`; `None` is an exchange that failed. A failed
    /// build is retried twice with its output.
    pub fn on_refactor_build(
        &mut self,
        run: &mut RefactorRun,
        code: String,
        reply: Option<Reply>,
    ) -> (r: BuildVerdict)
        requires
            old(run).task_idx < TASK_COUNT,
            old(run).attempt <= MAX_RETRIES,
            old(self).refactor_passed < u32::MAX,
            old(self).refactor_failed < u32::MAX,
            old(self).refactor_retries < u32::MAX,
        ensures
            match reply {
                None => r is Failed && *final(run) == *old(run) && *final(self) == (DraugDaemon {
                    refactor_failed: (old(self).refactor_failed + 1) as u32,
                    ..*old(self)
                }),
                Some(a) => {
                    let output = head(a.output@, OUTPUT_MAX as int);
                    if a.status == 0 {
                        (r matches BuildVerdict::Passed { keep_code } && keep_code == (old(
                            run,
                        ).level == 1)) && *final(run) == *old(run) && old(self).level_passed(
                            *final(self),
                            *old(run),
                            code,
                        )
                    } else if a.status == 1 && old(run).attempt < MAX_RETRIES {
                        (r matches BuildVerdict::Retry { prompt } && prompt@ == retry_prompt(
                            code@,
                            text_or_nothing(head(output, RETRY_OUTPUT as int)),
                        )) && *final(run) == (RefactorRun {
                            attempt: (old(run).attempt + 1) as u8,
                            ..*old(run)
                        }) && *final(self) == (DraugDaemon {
                            refactor_retries: (old(self).refactor_retries + 1) as u32,
                            ..*old(self)
                        })
                    } else {
                        let kept = head(output, MEMORY_OUTPUT as int);
                        r is Failed && *final(run) == *old(run) && *final(self) == (DraugDaemon {
                            refactor_failed: (old(self).refactor_failed + 1) as u32,
                            task_errors: final(self).task_errors,
                            ..*old(self)
                        }) && (if valid_utf8(kept) {
                            final(self).error_text(old(run).task_idx as int) == Some(
                                decode_utf8(kept),
                            ) && final(self).task_errors@ == old(self).task_errors@.update(
                                old(run).task_idx as int,
                                final(self).task_errors@[old(run).task_idx as int],
                            )
                        } else {
                            final(self).task_errors@ == old(self).task_errors@
                        })
                    }
                },
            },
    {
        let a = match reply {
            Some(a) => a,
            None => {
                self.record_refactor_fail();
                return BuildVerdict::Failed;
            },
        };
        let n: usize = head_len(a.output.len(), OUTPUT_MAX);
        let output = &a.output[0..n];
        assert(output@ =~= head(a.output@, OUTPUT_MAX as int));
        if a.status == 0 {
            self.record_refactor_pass();
            self.advance_task_level(run.task_idx);
            self.reset_skips();
            self.clear_task_error(run.task_idx);
            let keep_code: bool = run.level == 1;
            if keep_code {
                self.store_task_code(run.task_idx, code);
            }
            BuildVerdict::Passed { keep_code }
        } else if a.status == 1 && run.attempt < MAX_RETRIES {
            let error = match head_text(output, RETRY_OUTPUT) {
                Some(t) => t,
                None => String::new(),
            };
            assert(error@ =~= text_or_nothing(head(output@, RETRY_OUTPUT as int)));
            run.attempt = run.attempt + 1;
            self.refactor_retries = self.refactor_retries + 1;
            BuildVerdict::Retry { prompt: build_retry_prompt(code.as_str(), error.as_str()) }
        } else {
            self.record_refactor_fail();
            match head_text(output, MEMORY_OUTPUT) {
                Some(t) => {
                    self.store_task_error(run.task_idx, t);
                },
                None => {},
            }
            BuildVerdict::Failed
        }
    }

    /// The model that a run asks.
    pub fn refactor_model(run: &RefactorRun) -> (r: &'static str)
        ensures
            r@ == (if run.level <= 1 {
                "qwen2.5-coder:7b"@
            } else {
                "gemma4:31b-cloud"@
            }),
    {
        model_for_level(run.level)
    }
}

// ---------------------------------------------------------------------
// Plan steps
// ---------------------------------------------------------------------

/// What a plan iteration does.
#[derive(Debug, Clone, Copy, PartialEq, Eq, Structural)]
pub enum PlanAction {
    /// Execute the next step of the active plan.
    Execute,
    /// Plan the complex task with this index.
    PlanTask { idx: usize },
    /// Nothing is left.
    AllDone,
}

impl DraugDaemon {
    /// The next action in plan mode: the active plan first, then the next task.
    pub open spec fn plan_action(self) -> PlanAction {
        if self.active_plan matches Some(p) && !p.completed {
            PlanAction::Execute
        } else if self.complex_task_idx >= COMPLEX_TASK_COUNT {
            PlanAction::AllDone
        } else {
            PlanAction::PlanTask { idx: self.complex_task_idx }
        }
    }

    pub fn run_plan_step(&self) -> (r: PlanAction)
        ensures
            r == self.plan_action(),
    {
        match &self.active_plan {
            Some(p) => {
                if !p.completed {
                    return PlanAction::Execute;
                }
            },
            None => {},
        }
        if self.complex_task_idx >= COMPLEX_TASK_COUNT {
            return PlanAction::AllDone;
        }
        PlanAction::PlanTask { idx: self.complex_task_idx }
    }

    /// Takes over a plan for the task that was asked for. Without one the task
    /// is skipped.
    pub fn on_planned(&mut self, plan: Option<TaskPlan>)
        requires
            old(self).complex_task_idx < COMPLEX_TASK_COUNT,
        ensures
            *final(self) == (DraugDaemon {
                complex_task_idx: (old(self).complex_task_idx + 1) as usize,
                active_plan: match plan {
                    Some(p) => Some(p),
                    None => old(self).active_plan,
                },
                ..*old(self)
            }),
    {
        match plan {
            Some(p) => {
                self.active_plan = Some(p);
            },
            None => {},
        }
        self.complex_task_idx = self.complex_task_idx + 1;
    }
}

/// As long as an action is left in plan mode, plan work is left, and the other
/// way round.
pub proof fn plan_work_means_action(d: DraugDaemon)
    ensures
        d.plan_left() == (d.plan_action() != PlanAction::AllDone),
{
}

/// A pass completes exactly the level that was picked for the task.
pub proof fn pass_completes_the_level(
    d: DraugDaemon,
    next: DraugDaemon,
    run: RefactorRun,
    code: String,
)
    requires
        next_skill(d.task_levels@, 1) == Some((run.task_idx as int, run.level as int)),
        d.level_passed(next, run, code),
    ensures
        next.task_levels@[run.task_idx as int] == run.level,
        forall|j: int|
            0 <= j < d.task_levels@.len() && j != run.task_idx ==> next.task_levels@[j]
                == d.task_levels@[j],
{
    skills_are_breadth_first(d.task_levels@);
}

/// The proxy is looked at again after a minute, and at once where it did not
/// answer or was never looked at.
pub proof fn answers_go_stale(d: DraugDaemon, uptime_ms: u64)
    ensures
        d.ping_stale(uptime_ms) <==> d.last_ping_ms == 0 || !d.last_ping_ok || uptime_ms
            > d.last_ping_ms + 60_000,
{
}

/// A skipped iteration counts one skip more, and the thirtieth hibernates the
/// agent; nothing else changes.
pub proof fn skips_are_counted(d: DraugDaemon)
    ensures
        d.consecutive_skips < u32::MAX ==> d.skipped().consecutive_skips == d.consecutive_skips + 1,
        d.skipped().refactor_hibernating <==> d.refactor_hibernating || d.consecutive_skips >= 29,
        d.skipped().refactor_iter == d.refactor_iter,
        d.skipped().refactor_failed == d.refactor_failed,
        d.skipped().task_levels == d.task_levels,
{
}

/// The beginning of some bytes.
pub proof fn heads_are_beginnings(s: Seq<u8>, n: int)
    requires
        0 <= n,
    ensures
        head(s, n).is_prefix_of(s),
        s.len() <= n ==> head(s, n) == s,
        s.len() > n ==> head(s, n).len() == n,
{
    if s.len() <= n {
        assert(s.subrange(0, s.len() as int) =~= s);
    }
}

/// A passed level: the task is one level higher, its error is forgotten, its
/// code is kept on the first level, the run of skips ends, and one pass is
/// counted; the other tasks stay.
pub proof fn passes_are_booked(d: DraugDaemon, next: DraugDaemon, run: RefactorRun, code: String, j: int)
    requires
        d.level_passed(next, run, code),
        run.task_idx < 20,
        0 <= j < 20,
        d.refactor_passed < u32::MAX,
    ensures
        d.task_levels@[run.task_idx as int] < 5 ==> next.task_levels@[run.task_idx as int]
            == d.task_levels@[run.task_idx as int] + 1,
        next.task_errors@[run.task_idx as int] is None,
        run.level == 1 ==> next.task_code@[run.task_idx as int] == Some(code),
        run.level != 1 ==> next.task_code@ == d.task_code@,
        j != run.task_idx ==> next.task_levels@[j] == d.task_levels@[j] && next.task_errors@[j]
            == d.task_errors@[j] && next.task_code@[j] == d.task_code@[j],
        next.refactor_passed == d.refactor_passed + 1,
        next.consecutive_skips == 0,
        !next.refactor_hibernating,
        next.refactor_failed == d.refactor_failed,
{
}

/// In plan mode a plan that is not completed goes first, then the next of the
/// eight complex tasks; behind the last nothing is left.
pub proof fn plans_go_first(d: DraugDaemon)
    ensures
        (d.active_plan matches Some(p) && !p.completed) ==> d.plan_action() == PlanAction::Execute,
        (d.active_plan is None || (d.active_plan matches Some(p) && p.completed))
            && d.complex_task_idx < 8 ==> d.plan_action() == (PlanAction::PlanTask {
            idx: d.complex_task_idx,
        }),
        (d.active_plan is None || (d.active_plan matches Some(p) && p.completed))
            && d.complex_task_idx >= 8 ==> d.plan_action() == PlanAction::AllDone,
{
}

} // verus!
