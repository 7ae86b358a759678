//! The background agent: what it remembers, when it acts, and its skill tree.
use vstd::prelude::*;
use vstd::string::*;

use crate::friction::{elapsed, FrictionTracker};
use crate::refactor_types::{RefactorTask, TaskStatus};

verus! {

broadcast use vstd::seq_lib::group_seq_properties;

/// Interval between ticks.
pub const TICK_INTERVAL_MS: u64 = 10_000;

/// Capacity of the observation log.
pub const MAX_LOG_ENTRIES: usize = 20;

/// Observations that one analysis looks at.
pub const ANALYSIS_BATCH: usize = 3;

/// Idle time before a dream during the day.
pub const DREAM_IDLE_DAY_MS: u64 = 2_700_000;

/// Idle time before a dream at night.
pub const DREAM_IDLE_NIGHT_MS: u64 = 300_000;

/// Pause between dreams.
pub const DREAM_COOLDOWN_MS: u64 = 600_000;

/// Idle time before pattern mining.
pub const PATTERN_MINE_IDLE_MS: u64 = 300_000;

/// Pause between mining runs.
pub const PATTERN_MINE_COOLDOWN_MS: u64 = 1_800_000;

/// Telemetry events in one mining run.
pub const PATTERN_MINE_MAX_EVENTS: usize = 500;

/// Bytes of telemetry log in one prompt.
pub const PATTERN_MINE_CHUNK_SIZE: usize = 1800;

pub const DREAM_MAX_PER_SESSION: u32 = 10;

/// Failed refactors after which an app counts as perfected.
pub const DREAM_STRIKE_LIMIT: u8 = 3;

/// Idle time before the knowledge hunt.
pub const KNOWLEDGE_HUNT_IDLE_MS: u64 = 15_000;

pub const KNOWLEDGE_HUNT_COOLDOWN_MS: u64 = 300_000;

pub const KNOWLEDGE_HUNT_URL: &'static str =
    "https://en.wikipedia.org/wiki/Rust_(programming_language)";

/// Name under which the hunt stores its result.
pub const KNOWLEDGE_HUNT_ROOM: &'static str = "knowledge/rust_wiki.txt";

/// Interval between refactor iterations.
pub const REFACTOR_INTERVAL_MS: u64 = 60_000;

/// Iterations per boot.
pub const REFACTOR_MAX_ITER: u32 = 1000;

/// Number of complex tasks in plan mode.
pub const COMPLEX_TASK_COUNT: usize = 8;

pub const PLANNER_MODEL: &'static str = "gemma4:31b-cloud";

pub const EXECUTOR_MODEL: &'static str = "gemma4:31b-cloud";

pub const REFACTOR_MODEL: &'static str = "qwen2.5-coder:7b";

pub const ANALYSIS_MODEL: &'static str = "qwen2.5-coder:7b";

/// Levels that are in use.
pub const ACTIVE_SKILL_LEVELS: u8 = 3;

pub const MAX_SKILL_LEVELS: u8 = 5;

/// Number of skill tree tasks.
pub const TASK_COUNT: usize = 20;

/// Retries per attempt when the check fails.
pub const MAX_RETRIES: u8 = 2;

/// Idle time before the first refactor attempt.
pub const REFACTOR_INITIAL_IDLE_MS: u64 = 30_000;

/// Longest time in one phase of an asynchronous exchange.
pub const ASYNC_TIMEOUT_MS: u64 = 90_000;

/// Queue iterations per boot.
pub const MAX_REFACTOR_ITERATIONS_PER_BOOT: u32 = 16;

/// Attempts after which a failing queue task is left alone.
pub const MAX_ATTEMPTS_PER_TASK: u32 = 3;

/// Consecutive skips after which the loop hibernates.
pub const HIBERNATE_SKIPS: u32 = 30;

/// Pause between looks for the proxy while hibernating.
pub const HIBERNATE_PING_MS: u64 = 60_000;

/// Size of the stored state.
pub const STATE_BYTES: usize = 26;

/// Stored code must be shorter than this.
pub const CODE_MAX_BYTES: usize = 4096;

/// Phase of an asynchronous exchange.
#[derive(Debug, Clone, Copy, PartialEq, Eq, Structural)]
pub enum AsyncPhase {
    Idle,
    Connecting,
    Sending,
    Reading,
    Processing,
}

/// What an asynchronous exchange is for.
#[derive(Debug, Clone, Copy, PartialEq, Eq, Structural)]
pub enum AsyncOp {
    /// Nothing is under way.
    Nothing,
    LlmGenerate,
    FbpPatch,
    WasmCompile,
    ProxyPing,
    PlannerLlm,
    ExecutorLlm,
    RefactorLlm,
    CargoCheck,
    AnalysisLlm,
    PhaseCMultiFile,
}

/// Which kind of work is under way.
#[derive(Debug, Clone, Copy, PartialEq, Eq, Structural)]
pub enum TaskKind {
    SkillTree,
    PlanAndSolve,
    Refactor,
}

/// What a dream does to its app or driver.
#[derive(Debug, Clone, Copy, PartialEq, Eq, Structural)]
pub enum DreamMode {
    /// Fewer CPU cycles.
    Refactor,
    /// A better look.
    Creative,
    /// Hardening against extreme input.
    Nightmare,
    /// Less fuel for a driver.
    DriverRefactor,
    /// Hardening of a driver.
    DriverNightmare,
}

/// One system observation.
pub struct Observation {
    pub timestamp_ms: u64,
    pub uptime_s: u64,
    pub mem_used_mb: u32,
    pub mem_total_mb: u32,
    pub mem_pct: u32,
    pub task_count: u32,
    pub event: ObservationEvent,
}

/// What an observation is about.
#[derive(Debug, Clone, Copy, PartialEq, Eq, Structural)]
pub enum ObservationEvent {
    Tick,
    MemoryWarning { pct: u32 },
    IdleDetected { idle_ms: u64 },
    BootComplete,
}

/// An observation as the log keeps it. `event_tag` is 0 for a tick, 1 for a
/// memory warning, 2 for an idle user and 3 for the boot.
#[derive(Debug, Clone, Copy, PartialEq, Eq, Structural)]
pub struct ObservationSummary {
    pub timestamp_s: u32,
    pub mem_pct: u8,
    pub task_count: u8,
    pub event_tag: u8,
}

/// A task split into steps.
pub struct TaskPlan {
    pub task_id: String,
    pub task_desc: String,
    pub steps: Vec<PlanStep>,
    pub current_step: usize,
    pub completed: bool,
}

/// One step of a plan. `fail_count` counts its final failures.
pub struct PlanStep {
    pub description: String,
    pub code: Option<String>,
    pub done: bool,
    pub fail_count: u8,
}

/// State of the agent.
pub struct DraugDaemon {
    pub log: [Option<ObservationSummary>; 20],
    pub log_head: usize,
    pub log_count: usize,
    pub last_tick_ms: u64,
    pub last_user_input_ms: u64,
    pub active: bool,
    pub waiting_for_llm: bool,
    pub analysis_count: u32,
    pub last_analysis_ms: u64,
    pub dream_count: u32,
    pub last_dream_ms: u64,
    pub dreaming: bool,
    pub dream_target: Option<String>,
    pub dream_mode: DreamMode,
    /// Failed refactors by key hash.
    pub strikes: [Option<(u32, u8)>; 8],
    /// When a key was last dreamt about, by key hash.
    pub dream_journal: [Option<(u32, u32)>; 16],
    pub friction: FrictionTracker,
    /// Crashes by key hash. A slot with count 0 is free.
    pub crash_hashes: [(u32, u8); 8],
    pub last_pattern_mine_ms: u64,
    pub pattern_mine_count: u32,
    pub last_insight_hash: u32,
    pub knowledge_hunted: bool,
    pub refactor_iter: u32,
    pub last_refactor_ms: u64,
    pub refactor_passed: u32,
    pub refactor_failed: u32,
    /// Highest completed level per task.
    pub task_levels: [u8; 20],
    /// Level 1 code per task.
    pub task_code: [Option<String>; 20],
    pub refactor_retries: u32,
    pub active_plan: Option<TaskPlan>,
    pub complex_task_idx: usize,
    pub plan_mode_active: bool,
    /// Last compiler error per task.
    pub task_errors: [Option<String>; 20],
    pub consecutive_skips: u32,
    pub refactor_hibernating: bool,
    pub task_parse_fails: [u32; 20],
    pub force_advance_count: u32,
    pub phase_c_idx: u8,
    pub last_ping_ms: u64,
    pub last_ping_ok: bool,
    pub async_phase: AsyncPhase,
    /// Connection slot, 0xFFFF for none.
    pub async_tcp_slot: u64,
    pub async_response: Vec<u8>,
    pub async_operation: AsyncOp,
    pub async_request: Vec<u8>,
    pub async_sent: usize,
    pub async_task_idx: usize,
    pub async_level: u8,
    pub async_attempt: u8,
    pub async_phase_started_ms: u64,
    /// The refactor queue, once loaded.
    pub refactor_tasks: Option<Vec<RefactorTask>>,
    /// Queue entry under way, the largest `usize` for none.
    pub current_refactor_idx: usize,
    pub current_refactor_target: String,
    pub refactor_iterations_done: u32,
}

/// The model for a skill level: a small one for the first, a large one above.
pub fn model_for_level(level: u8) -> (r: &'static str)
    ensures
        r@ == (if level <= 1 {
            "qwen2.5-coder:7b"@
        } else {
            "gemma4:31b-cloud"@
        }),
{
    if level <= 1 {
        "qwen2.5-coder:7b"
    } else {
        "gemma4:31b-cloud"
    }
}

// ---------------------------------------------------------------------
// Skill tree
// ---------------------------------------------------------------------

/// The first task at or behind `i` that has not completed `level`.
pub open spec fn first_below(levels: Seq<u8>, level: int, i: int) -> Option<int>
    decreases levels.len() - i,
{
    if i >= levels.len() {
        None
    } else if levels[i] < level {
        Some(i)
    } else {
        first_below(levels, level, i + 1)
    }
}

/// The next task and the level to attempt, looking at `level` and above.
pub open spec fn next_skill(levels: Seq<u8>, level: int) -> Option<(int, int)>
    decreases ACTIVE_SKILL_LEVELS - level + 1,
{
    if level > ACTIVE_SKILL_LEVELS {
        None
    } else {
        match first_below(levels, level, 0) {
            Some(i) => Some((i, level)),
            None => next_skill(levels, level + 1),
        }
    }
}

proof fn lemma_first_below(levels: Seq<u8>, level: int, i: int)
    requires
        0 <= i,
    ensures
        match first_below(levels, level, i) {
            Some(k) => i <= k < levels.len() && levels[k] < level && forall|j: int|
                i <= j < k ==> levels[j] >= level,
            None => forall|j: int| i <= j < levels.len() ==> levels[j] >= level,
        },
    decreases levels.len() - i,
{
    if i < levels.len() && levels[i] >= level {
        lemma_first_below(levels, level, i + 1);
    }
}

/// The skill tree is worked breadth first: the task that is picked stands one
/// level below its target, every task has completed the levels before the
/// target, and every earlier task has completed the target too. Nothing is
/// picked exactly when all tasks have completed all active levels.
pub proof fn skills_are_breadth_first(levels: Seq<u8>)
    ensures
        match next_skill(levels, 1) {
            Some((i, level)) => {
                &&& 0 <= i < levels.len()
                &&& 1 <= level <= ACTIVE_SKILL_LEVELS
                &&& levels[i] == level - 1
                &&& forall|j: int| 0 <= j < levels.len() ==> levels[j] >= level - 1
                &&& forall|j: int| 0 <= j < i ==> levels[j] >= level
            },
            None => forall|j: int| 0 <= j < levels.len() ==> levels[j] >= ACTIVE_SKILL_LEVELS,
        },
{
    reveal_with_fuel(next_skill, 5);
    lemma_first_below(levels, 1, 0);
    lemma_first_below(levels, 2, 0);
    lemma_first_below(levels, 3, 0);
}

/// Raising a task never moves the pick back to a lower level.
pub proof fn raising_keeps_level(levels: Seq<u8>, k: int)
    requires
        0 <= k < levels.len(),
        levels[k] < MAX_SKILL_LEVELS,
    ensures
        match (next_skill(levels, 1), next_skill(levels.update(k, (levels[k] + 1) as u8), 1)) {
            (Some((_, before)), Some((_, after))) => before <= after,
            (Some(_), None) => true,
            (None, next) => next is None,
        },
{
    let raised = levels.update(k, (levels[k] + 1) as u8);
    skills_are_breadth_first(levels);
    skills_are_breadth_first(raised);
    match next_skill(raised, 1) {
        Some((j, _)) => {
            assert(raised[j] >= levels[j]);
        },
        None => {},
    }
}

/// How many of the first `k` tasks have completed a level.
pub open spec fn count_at(levels: Seq<u8>, level: u8, k: int) -> int
    decreases k,
{
    if k <= 0 {
        0
    } else {
        count_at(levels, level, k - 1) + (if levels[k - 1] >= level {
            1int
        } else {
            0
        })
    }
}

/// Whether a queue entry may be attempted.
pub open spec fn eligible(status: TaskStatus, attempts: u32) -> bool {
    match status {
        TaskStatus::Pending => true,
        TaskStatus::Pass | TaskStatus::Skip => false,
        TaskStatus::FailCompile | TaskStatus::FailCallerCompat => attempts < MAX_ATTEMPTS_PER_TASK,
    }
}

/// The first entry at or behind `i` that may be attempted.
pub open spec fn first_eligible(tasks: Seq<RefactorTask>, i: int) -> Option<int>
    decreases tasks.len() - i,
{
    if i >= tasks.len() {
        None
    } else if eligible(tasks[i].last_status, tasks[i].attempts) {
        Some(i)
    } else {
        first_eligible(tasks, i + 1)
    }
}

/// Picks the first entry of the queue that may be attempted.
pub fn pick_eligible(tasks: &[RefactorTask]) -> (r: Option<usize>)
    ensures
        match r {
            Some(i) => i < tasks@.len() && first_eligible(tasks@, 0) == Some(i as int),
            None => first_eligible(tasks@, 0) is None,
        },
{
    let mut i: usize = 0;
    while i < tasks.len()
        invariant
            i <= tasks.len(),
            first_eligible(tasks@, 0) == first_eligible(tasks@, i as int),
        decreases tasks.len() - i,
    {
        let ok: bool = match tasks[i].last_status {
            TaskStatus::Pending => true,
            TaskStatus::Pass => false,
            TaskStatus::Skip => false,
            TaskStatus::FailCompile => tasks[i].attempts < MAX_ATTEMPTS_PER_TASK,
            TaskStatus::FailCallerCompat => tasks[i].attempts < MAX_ATTEMPTS_PER_TASK,
        };
        if ok {
            return Some(i);
        }
        i = i + 1;
    }
    None
}

// ---------------------------------------------------------------------
// Scheduling
// ---------------------------------------------------------------------

/// The pause before the next refactor iteration: it doubles from the sixth
/// skip on, up to five minutes; otherwise first-level work waits a quarter of
/// the normal interval.
pub open spec fn refactor_pause(skips: u32, plan_mode: bool, levels: Seq<u8>) -> int {
    if skips >= 8 {
        300_000
    } else if skips == 7 {
        4 * REFACTOR_INTERVAL_MS as int
    } else if skips == 6 {
        2 * REFACTOR_INTERVAL_MS as int
    } else if !plan_mode && (next_skill(levels, 1) matches Some((_, level)) && level == 1) {
        15_000
    } else {
        REFACTOR_INTERVAL_MS as int
    }
}

impl DraugDaemon {
    /// The log is full, or its entries stand at its beginning.
    pub open spec fn log_wf(self) -> bool {
        &&& self.log_head < MAX_LOG_ENTRIES
        &&& self.log_count <= MAX_LOG_ENTRIES
        &&& self.log_count < MAX_LOG_ENTRIES ==> self.log_head == self.log_count
        &&& forall|i: int| 0 <= i < self.log_count ==> (#[trigger] self.log@[i]) is Some
    }

    /// The observations in the log, oldest first.
    pub open spec fn entries(self) -> Seq<ObservationSummary> {
        Seq::new(
            self.log_count as nat,
            |i: int|
                if self.log_count < MAX_LOG_ENTRIES {
                    self.log@[i].unwrap()
                } else if self.log_head + i < MAX_LOG_ENTRIES {
                    self.log@[self.log_head + i].unwrap()
                } else {
                    self.log@[self.log_head + i - MAX_LOG_ENTRIES].unwrap()
                },
        )
    }

    /// Whether plan work remains.
    pub open spec fn plan_left(self) -> bool {
        self.complex_task_idx < COMPLEX_TASK_COUNT || (self.active_plan matches Some(p)
            && !p.completed)
    }

    /// Whether there is any refactor work: a skill level, a plan in progress,
    /// or plan mode that could begin.
    pub open spec fn work_left(self) -> bool {
        next_skill(self.task_levels@, 1) is Some || (if self.plan_mode_active {
            self.plan_left()
        } else {
            self.complex_task_idx < COMPLEX_TASK_COUNT
        })
    }

    /// Nothing rules a refactor iteration out at once.
    pub open spec fn may_refactor(self, mem_pct: u32) -> bool {
        self.active && !self.dreaming && !self.waiting_for_llm && self.refactor_iter
            < REFACTOR_MAX_ITER && mem_pct <= 90
    }

    /// Whether the hibernating loop is due to look for the proxy.
    pub open spec fn ping_due(self, now_ms: u64, mem_pct: u32) -> bool {
        self.may_refactor(mem_pct) && self.refactor_hibernating && elapsed(
            now_ms,
            self.last_refactor_ms,
        ) >= HIBERNATE_PING_MS
    }

    /// Whether the loop is due, hibernation aside.
    pub open spec fn step_due(self, now_ms: u64) -> bool {
        self.work_left() && elapsed(now_ms, self.last_user_input_ms) >= REFACTOR_INITIAL_IDLE_MS
            && (self.last_refactor_ms == 0 || elapsed(now_ms, self.last_refactor_ms)
            >= refactor_pause(self.consecutive_skips, self.plan_mode_active, self.task_levels@))
    }

    /// A fresh agent.
    pub fn new() -> (d: Self)
        ensures
            d.log_wf(),
            d.entries() == Seq::<ObservationSummary>::empty(),
            d.active,
            !d.waiting_for_llm && !d.dreaming && !d.knowledge_hunted && !d.plan_mode_active
                && !d.refactor_hibernating,
            d.analysis_count == 0 && d.dream_count == 0 && d.refactor_iter == 0
                && d.pattern_mine_count == 0 && d.consecutive_skips == 0,
            d.last_tick_ms == 0 && d.last_user_input_ms == 0 && d.last_analysis_ms == 0
                && d.last_dream_ms == 0 && d.last_refactor_ms == 0 && d.last_pattern_mine_ms == 0,
            d.refactor_passed == 0 && d.refactor_failed == 0 && d.refactor_retries == 0
                && d.force_advance_count == 0 && d.refactor_iterations_done == 0,
            d.last_insight_hash == 0 && d.complex_task_idx == 0 && d.phase_c_idx == 0,
            d.last_ping_ms == 0 && !d.last_ping_ok,
            d.dream_target is None && d.dream_mode == DreamMode::Refactor,
            d.active_plan is None && d.refactor_tasks is None,
            d.friction.scores@ == Seq::new(8, |i: int| (0u32, 0u16)),
            d.friction.last_decay_ms == 0,
            d.strikes@ == Seq::new(8, |i: int| None::<(u32, u8)>),
            d.dream_journal@ == Seq::new(16, |i: int| None::<(u32, u32)>),
            d.crash_hashes@ == Seq::new(8, |i: int| (0u32, 0u8)),
            d.task_levels@ == Seq::new(20, |i: int| 0u8),
            d.task_parse_fails@ == Seq::new(20, |i: int| 0u32),
            d.task_code@ == Seq::new(20, |i: int| None::<String>),
            d.task_errors@ == Seq::new(20, |i: int| None::<String>),
            d.async_phase == AsyncPhase::Idle && d.async_operation == AsyncOp::Nothing,
            d.async_tcp_slot == 0xFFFF,
            d.async_response@.len() == 0 && d.async_request@.len() == 0 && d.async_sent == 0,
            d.async_task_idx == 0 && d.async_level == 0 && d.async_attempt == 0
                && d.async_phase_started_ms == 0,
            d.current_refactor_idx == usize::MAX,
            d.current_refactor_target@.len() == 0,
    {
        let d = DraugDaemon {
            log: [None; 20],
            log_head: 0,
            log_count: 0,
            last_tick_ms: 0,
            last_user_input_ms: 0,
            active: true,
            waiting_for_llm: false,
            analysis_count: 0,
            last_analysis_ms: 0,
            dream_count: 0,
            last_dream_ms: 0,
            dreaming: false,
            dream_target: None,
            dream_mode: DreamMode::Refactor,
            strikes: [None; 8],
            dream_journal: [None; 16],
            friction: FrictionTracker::new(),
            crash_hashes: [(0u32, 0u8); 8],
            last_pattern_mine_ms: 0,
            pattern_mine_count: 0,
            last_insight_hash: 0,
            knowledge_hunted: false,
            refactor_iter: 0,
            last_refactor_ms: 0,
            refactor_passed: 0,
            refactor_failed: 0,
            task_levels: [0u8; 20],
            task_code: [
                None, None, None, None, None, None, None, None, None, None,
                None, None, None, None, None, None, None, None, None, None,
            ],
            refactor_retries: 0,
            active_plan: None,
            complex_task_idx: 0,
            plan_mode_active: false,
            task_errors: [
                None, None, None, None, None, None, None, None, None, None,
                None, None, None, None, None, None, None, None, None, None,
            ],
            consecutive_skips: 0,
            refactor_hibernating: false,
            task_parse_fails: [0u32; 20],
            force_advance_count: 0,
            phase_c_idx: 0,
            last_ping_ms: 0,
            last_ping_ok: false,
            async_phase: AsyncPhase::Idle,
            async_tcp_slot: 0xFFFF,
            async_response: Vec::new(),
            async_operation: AsyncOp::Nothing,
            async_request: Vec::new(),
            async_sent: 0,
            async_task_idx: 0,
            async_level: 0,
            async_attempt: 0,
            async_phase_started_ms: 0,
            refactor_tasks: None,
            current_refactor_idx: usize::MAX,
            current_refactor_target: String::new(),
            refactor_iterations_done: 0,
        };
        d
    }

    /// Whether the caller must look for the proxy before asking
    /// `should_run_refactor_step`.
    pub fn wants_proxy_ping(&self, now_ms: u64, mem_pct: u32) -> (r: bool)
        ensures
            r == self.ping_due(now_ms, mem_pct),
    {
        self.active && !self.dreaming && !self.waiting_for_llm && self.refactor_iter
            < REFACTOR_MAX_ITER && mem_pct <= 90 && self.refactor_hibernating
            && now_ms.saturating_sub(self.last_refactor_ms) >= HIBERNATE_PING_MS
    }

    /// Whether a refactor iteration is due. `mem_pct` is the share of memory in
    /// use, `reachable` tells whether the proxy answered where a ping was due;
    /// otherwise it is not looked at. An answer ends the hibernation and starts
    /// a new interval.
    pub fn should_run_refactor_step(&mut self, now_ms: u64, mem_pct: u32, reachable: bool) -> (r:
        bool)
        ensures
            *final(self) == (if old(self).ping_due(now_ms, mem_pct) {
                if reachable {
                    DraugDaemon {
                        last_refactor_ms: now_ms,
                        consecutive_skips: 0,
                        refactor_hibernating: false,
                        ..*old(self)
                    }
                } else {
                    DraugDaemon { last_refactor_ms: now_ms, ..*old(self) }
                }
            } else {
                *old(self)
            }),
            r == (old(self).may_refactor(mem_pct) && !final(self).refactor_hibernating
                && final(self).step_due(now_ms)),
    {
        if !self.active {
            return false;
        }
        if self.dreaming || self.waiting_for_llm {
            return false;
        }
        if self.refactor_iter >= REFACTOR_MAX_ITER {
            return false;
        }
        if mem_pct > 90 {
            return false;
        }
        if self.refactor_hibernating {
            if now_ms.saturating_sub(self.last_refactor_ms) >= HIBERNATE_PING_MS {
                self.last_refactor_ms = now_ms;
                if reachable {
                    self.consecutive_skips = 0;
                    self.refactor_hibernating = false;
                } else {
                    return false;
                }
            } else {
                return false;
            }
        }
        let next = self.next_task_and_level();
        let has_skill_work: bool = next.is_some();
        let has_plan_work: bool = self.plan_mode_active && self.has_plan_work();
        let needs_plan_transition: bool = !has_skill_work && !self.plan_mode_active
            && self.complex_task_idx < COMPLEX_TASK_COUNT;
        if !has_skill_work && !has_plan_work && !needs_plan_transition {
            return false;
        }
        if now_ms.saturating_sub(self.last_user_input_ms) < REFACTOR_INITIAL_IDLE_MS {
            return false;
        }
        if self.last_refactor_ms == 0 {
            return true;
        }
        let pause: u64 = if self.consecutive_skips > 5 {
            if self.consecutive_skips == 6 {
                2 * REFACTOR_INTERVAL_MS
            } else if self.consecutive_skips == 7 {
                4 * REFACTOR_INTERVAL_MS
            } else {
                300_000
            }
        } else if !self.plan_mode_active {
            match next {
                Some((_, level)) => if level == 1 {
                    15_000
                } else {
                    REFACTOR_INTERVAL_MS
                },
                None => REFACTOR_INTERVAL_MS,
            }
        } else {
            REFACTOR_INTERVAL_MS
        };
        now_ms.saturating_sub(self.last_refactor_ms) >= pause
    }

    /// Counts a refactor iteration and returns its number.
    pub fn advance_refactor(&mut self, now_ms: u64) -> (r: u32)
        requires
            old(self).refactor_iter < u32::MAX,
        ensures
            *final(self) == (DraugDaemon {
                refactor_iter: (old(self).refactor_iter + 1) as u32,
                last_refactor_ms: now_ms,
                ..*old(self)
            }),
            r == old(self).refactor_iter + 1,
    {
        self.refactor_iter = self.refactor_iter + 1;
        self.last_refactor_ms = now_ms;
        self.refactor_iter
    }

    pub fn record_refactor_pass(&mut self)
        requires
            old(self).refactor_passed < u32::MAX,
        ensures
            *final(self) == (DraugDaemon {
                refactor_passed: (old(self).refactor_passed + 1) as u32,
                ..*old(self)
            }),
    {
        self.refactor_passed = self.refactor_passed + 1;
    }

    pub fn record_refactor_fail(&mut self)
        requires
            old(self).refactor_failed < u32::MAX,
        ensures
            *final(self) == (DraugDaemon {
                refactor_failed: (old(self).refactor_failed + 1) as u32,
                ..*old(self)
            }),
    {
        self.refactor_failed = self.refactor_failed + 1;
    }

    /// The next task and the level to attempt, breadth first.
    pub fn next_task_and_level(&self) -> (r: Option<(usize, u8)>)
        ensures
            match r {
                Some((i, level)) => i < TASK_COUNT && 1 <= level <= ACTIVE_SKILL_LEVELS
                    && next_skill(self.task_levels@, 1) == Some((i as int, level as int)),
                None => next_skill(self.task_levels@, 1) is None,
            },
    {
        let mut level: u8 = 1;
        while level <= ACTIVE_SKILL_LEVELS
            invariant
                1 <= level <= ACTIVE_SKILL_LEVELS + 1,
                next_skill(self.task_levels@, 1) == next_skill(self.task_levels@, level as int),
            decreases ACTIVE_SKILL_LEVELS + 1 - level,
        {
            let mut i: usize = 0;
            while i < TASK_COUNT
                invariant
                    i <= TASK_COUNT,
                    1 <= level <= ACTIVE_SKILL_LEVELS,
                    next_skill(self.task_levels@, 1) == next_skill(self.task_levels@, level as int),
                    first_below(self.task_levels@, level as int, 0) == first_below(
                        self.task_levels@,
                        level as int,
                        i as int,
                    ),
                decreases TASK_COUNT - i,
            {
                if self.task_levels[i] < level {
                    return Some((i, level));
                }
                i = i + 1;
            }
            level = level + 1;
        }
        None
    }

    /// The next entry of the refactor queue to attempt.
    pub fn pick_next_refactor(&self) -> (r: Option<usize>)
        ensures
            match self.refactor_tasks {
                Some(tasks) => match r {
                    Some(i) => i < tasks@.len() && first_eligible(tasks@, 0) == Some(i as int),
                    None => first_eligible(tasks@, 0) is None,
                },
                None => r is None,
            },
    {
        match &self.refactor_tasks {
            Some(tasks) => pick_eligible(tasks.as_slice()),
            None => None,
        }
    }

    pub fn refactor_budget_remaining(&self) -> (r: bool)
        ensures
            r == (self.refactor_iterations_done < MAX_REFACTOR_ITERATIONS_PER_BOOT),
    {
        self.refactor_iterations_done < MAX_REFACTOR_ITERATIONS_PER_BOOT
    }

    pub fn install_refactor_tasks(&mut self, tasks: Vec<RefactorTask>)
        ensures
            *final(self) == (DraugDaemon { refactor_tasks: Some(tasks), ..*old(self) }),
    {
        self.refactor_tasks = Some(tasks);
    }

    /// Records that a task passed its current level.
    pub fn advance_task_level(&mut self, idx: usize)
        ensures
            *final(self) == (DraugDaemon { task_levels: final(self).task_levels, ..*old(self) }),
            final(self).task_levels@ == (if idx < TASK_COUNT && old(self).task_levels@[idx as int]
                < MAX_SKILL_LEVELS {
                old(self).task_levels@.update(
                    idx as int,
                    (old(self).task_levels@[idx as int] + 1) as u8,
                )
            } else {
                old(self).task_levels@
            }),
    {
        if idx < TASK_COUNT && self.task_levels[idx] < MAX_SKILL_LEVELS {
            let raised: u8 = self.task_levels[idx] + 1;
            self.task_levels[idx] = raised;
        }
    }

    pub fn store_task_code(&mut self, idx: usize, code: String)
        ensures
            *final(self) == (DraugDaemon { task_code: final(self).task_code, ..*old(self) }),
            final(self).task_code@ == (if idx < TASK_COUNT {
                old(self).task_code@.update(idx as int, Some(code))
            } else {
                old(self).task_code@
            }),
    {
        if idx < TASK_COUNT {
            self.task_code[idx] = Some(code);
        }
    }

    pub fn get_task_code(&self, idx: usize) -> (r: Option<&str>)
        ensures
            match r {
                Some(s) => idx < TASK_COUNT && (self.task_code@[idx as int] matches Some(c) && s@
                    == c@),
                None => idx >= TASK_COUNT || self.task_code@[idx as int] is None,
            },
    {
        if idx < TASK_COUNT {
            match &self.task_code[idx] {
                Some(c) => Some(c.as_str()),
                None => None,
            }
        } else {
            None
        }
    }

    /// How many tasks have completed a level.
    pub fn tasks_at_level(&self, level: u8) -> (r: usize)
        ensures
            r == count_at(self.task_levels@, level, TASK_COUNT as int),
            r <= TASK_COUNT,
    {
        let mut n: usize = 0;
        let mut i: usize = 0;
        while i < TASK_COUNT
            invariant
                n <= i <= TASK_COUNT,
                n == count_at(self.task_levels@, level, i as int),
            decreases TASK_COUNT - i,
        {
            if self.task_levels[i] >= level {
                n = n + 1;
            }
            i = i + 1;
        }
        n
    }

    /// Whether plan work remains.
    pub fn has_plan_work(&self) -> (r: bool)
        ensures
            r == self.plan_left(),
    {
        self.complex_task_idx < COMPLEX_TASK_COUNT || match &self.active_plan {
            Some(p) => !p.completed,
            None => false,
        }
    }

    pub fn store_task_error(&mut self, idx: usize, error: String)
        ensures
            *final(self) == (DraugDaemon { task_errors: final(self).task_errors, ..*old(self) }),
            final(self).task_errors@ == (if idx < TASK_COUNT {
                old(self).task_errors@.update(idx as int, Some(error))
            } else {
                old(self).task_errors@
            }),
    {
        if idx < TASK_COUNT {
            self.task_errors[idx] = Some(error);
        }
    }

    pub fn get_task_error(&self, idx: usize) -> (r: Option<&str>)
        ensures
            match r {
                Some(s) => idx < TASK_COUNT && (self.task_errors@[idx as int] matches Some(c) && s@
                    == c@),
                None => idx >= TASK_COUNT || self.task_errors@[idx as int] is None,
            },
    {
        if idx < TASK_COUNT {
            match &self.task_errors[idx] {
                Some(c) => Some(c.as_str()),
                None => None,
            }
        } else {
            None
        }
    }

    pub fn clear_task_error(&mut self, idx: usize)
        ensures
            *final(self) == (DraugDaemon { task_errors: final(self).task_errors, ..*old(self) }),
            final(self).task_errors@ == (if idx < TASK_COUNT {
                old(self).task_errors@.update(idx as int, None)
            } else {
                old(self).task_errors@
            }),
    {
        if idx < TASK_COUNT {
            self.task_errors[idx] = None;
        }
    }

    pub fn is_active(&self) -> (r: bool)
        ensures
            r == self.active,
    {
        self.active
    }

    pub fn set_active(&mut self, v: bool)
        ensures
            *final(self) == (DraugDaemon { active: v, ..*old(self) }),
    {
        self.active = v;
    }

    /// Records a skipped iteration. The loop hibernates after thirty in a row.
    pub fn record_skip(&mut self)
        ensures
            *final(self) == (DraugDaemon {
                consecutive_skips: skipped_once(
                    (old(self).consecutive_skips, old(self).refactor_hibernating),
                ).0,
                refactor_hibernating: skipped_once(
                    (old(self).consecutive_skips, old(self).refactor_hibernating),
                ).1,
                ..*old(self)
            }),
    {
        self.consecutive_skips = self.consecutive_skips.saturating_add(1);
        if self.consecutive_skips >= HIBERNATE_SKIPS && !self.refactor_hibernating {
            self.refactor_hibernating = true;
        }
    }

    /// Ends a run of skips.
    pub fn reset_skips(&mut self)
        ensures
            *final(self) == (DraugDaemon {
                consecutive_skips: 0,
                refactor_hibernating: false,
                ..*old(self)
            }),
    {
        self.consecutive_skips = 0;
        self.refactor_hibernating = false;
    }
}

/// The run of skips and the hibernation after one more skip.
pub open spec fn skipped_once(s: (u32, bool)) -> (u32, bool) {
    (
        if s.0 < u32::MAX {
            (s.0 + 1) as u32
        } else {
            u32::MAX
        },
        s.1 || s.0 + 1 >= HIBERNATE_SKIPS,
    )
}

/// The run of skips and the hibernation after `n` skips.
pub open spec fn skipped(s: (u32, bool), n: nat) -> (u32, bool)
    decreases n,
{
    if n == 0 {
        s
    } else {
        skipped_once(skipped(s, (n - 1) as nat))
    }
}

/// The loop hibernates when thirty iterations in a row were skipped, and not
/// before.
pub proof fn thirty_skips_hibernate(n: nat)
    ensures
        skipped((0, false), n).1 <==> n >= HIBERNATE_SKIPS,
        n <= u32::MAX ==> skipped((0, false), n).0 == n,
    decreases n,
{
    if n > 0 {
        thirty_skips_hibernate((n - 1) as nat);
        if n > u32::MAX {
            assert(n - 1 >= HIBERNATE_SKIPS);
        }
    }
}

/// Between two iterations there are fifteen seconds at least, however many
/// were skipped, and five minutes at most.
pub proof fn pauses_are_bounded(skips: u32, plan_mode: bool, levels: Seq<u8>)
    ensures
        15_000 <= refactor_pause(skips, plan_mode, levels) <= 300_000,
{
}

/// After the last iteration none is due any more, and no ping is sent.
pub proof fn iterations_end(d: DraugDaemon, now_ms: u64, mem_pct: u32)
    requires
        d.refactor_iter >= REFACTOR_MAX_ITER,
    ensures
        !d.may_refactor(mem_pct),
        !d.ping_due(now_ms, mem_pct),
{
}

// ---------------------------------------------------------------------
// When the agent works, in numbers
// ---------------------------------------------------------------------

/// The pause before the next iteration: a minute, a quarter of one for work on
/// the first level outside plan mode; from the sixth skip on two minutes, four,
/// and then five.
pub proof fn pauses_in_numbers(skips: u32, plan_mode: bool, levels: Seq<u8>)
    ensures
        ({
            let first = exists|i: int| 0 <= i < levels.len() && #[trigger] levels[i] == 0;
            let pause = refactor_pause(skips, plan_mode, levels);
            &&& skips <= 5 && !plan_mode && first ==> pause == 15_000
            &&& skips <= 5 && (plan_mode || !first) ==> pause == 60_000
            &&& skips == 6 ==> pause == 120_000
            &&& skips == 7 ==> pause == 240_000
            &&& skips >= 8 ==> pause == 300_000
        }),
{
    skills_are_breadth_first(levels);
    match next_skill(levels, 1) {
        Some((i, level)) => {
            if level == 1 {
                assert(levels[i] == 0);
            } else {
                assert forall|j: int| 0 <= j < levels.len() implies #[trigger] levels[j] != 0 by {
                    assert(levels[j] >= level - 1);
                }
            }
        },
        None => {
            assert forall|j: int| 0 <= j < levels.len() implies #[trigger] levels[j] != 0 by {
                assert(levels[j] >= ACTIVE_SKILL_LEVELS);
            }
        },
    }
}

/// An iteration is due where the user was away for half a minute, work is left,
/// and the pause since the last iteration is over; the first one waits for no
/// pause.
pub proof fn iterations_wait_for_the_user(d: DraugDaemon, now_ms: u64)
    ensures
        d.step_due(now_ms) ==> now_ms >= d.last_user_input_ms + 30_000,
        d.step_due(now_ms) && d.last_refactor_ms > 0 ==> now_ms >= d.last_refactor_ms + 15_000,
        d.step_due(now_ms) ==> d.work_left(),
        d.work_left() && now_ms >= d.last_user_input_ms + 30_000 && (d.last_refactor_ms == 0
            || now_ms >= d.last_refactor_ms + 300_000) ==> d.step_due(now_ms),
{
    pauses_are_bounded(d.consecutive_skips, d.plan_mode_active, d.task_levels@);
}

/// What rules an iteration out: a paused agent, a dream, a reply that is waited
/// for, a thousand iterations, or more than nine tenths of the memory in use.
pub proof fn iterations_are_ruled_out(d: DraugDaemon, mem_pct: u32)
    ensures
        d.may_refactor(mem_pct) <==> d.active && !d.dreaming && !d.waiting_for_llm
            && d.refactor_iter < 1000 && mem_pct <= 90,
{
}

/// A hibernating agent looks for the proxy once a minute, and only then.
pub proof fn pings_come_once_a_minute(d: DraugDaemon, now_ms: u64, mem_pct: u32)
    ensures
        d.ping_due(now_ms, mem_pct) <==> d.refactor_hibernating && now_ms >= d.last_refactor_ms
            + 60_000 && d.may_refactor(mem_pct),
{
}

/// Work is left as long as a task has not completed three levels, one of the
/// eight complex tasks is not begun, or a plan is not completed in plan mode.
pub proof fn work_is_left(d: DraugDaemon)
    ensures
        (exists|i: int| 0 <= i < d.task_levels@.len() && #[trigger] d.task_levels@[i] < 3)
            ==> d.work_left(),
        d.complex_task_idx < 8 ==> d.work_left(),
        (d.active_plan matches Some(p) && !p.completed) && d.plan_mode_active ==> d.work_left(),
        (forall|i: int| 0 <= i < d.task_levels@.len() ==> #[trigger] d.task_levels@[i] >= 3)
            && d.complex_task_idx >= 8 && (d.active_plan is None || (
        d.active_plan matches Some(p) && p.completed)) ==> !d.work_left(),
{
    let levels = d.task_levels@;
    skills_are_breadth_first(levels);
    if next_skill(levels, 1) is None {
        assert forall|i: int| 0 <= i < levels.len() implies #[trigger] levels[i] >= 3 by {
            assert(levels[i] >= ACTIVE_SKILL_LEVELS);
        }
    } else {
        let (i, level) = next_skill(levels, 1)->0;
        assert(levels[i] < 3);
    }
}

/// An entry of the queue may be attempted as long as it is pending, or failed
/// fewer than three times; never after a pass or a skip.
pub proof fn failures_may_be_retried(status: TaskStatus, attempts: u32)
    ensures
        eligible(status, attempts) <==> status == TaskStatus::Pending || ((status
            == TaskStatus::FailCompile || status == TaskStatus::FailCallerCompat) && attempts < 3),
{
}

/// How many tasks have completed a level: one more for each that has.
pub proof fn completed_tasks_are_counted(levels: Seq<u8>, level: u8)
    ensures
        count_at(levels, level, levels.len() as int) == levels.filter(|l: u8| l >= level).len(),
    decreases levels.len(),
{
    reveal(Seq::filter);
    if levels.len() > 0 {
        completed_tasks_are_counted(levels.drop_last(), level);
        lemma_count_front(levels, level, levels.len() - 1);
    }
}

proof fn lemma_count_front(levels: Seq<u8>, level: u8, k: int)
    requires
        0 <= k < levels.len(),
    ensures
        count_at(levels, level, k) == count_at(levels.drop_last(), level, k),
    decreases k,
{
    if k > 0 {
        lemma_count_front(levels, level, k - 1);
    }
}

/// Thirty skips in a row hibernate the agent, whatever came before.
pub proof fn skips_hibernate(skips: u32, asleep: bool)
    ensures
        skipped_once((skips, asleep)).1 <==> asleep || skips >= 29,
        skips < u32::MAX ==> skipped_once((skips, asleep)).0 == skips + 1,
        skips == u32::MAX ==> skipped_once((skips, asleep)).0 == skips,
{
}

} // verus!
